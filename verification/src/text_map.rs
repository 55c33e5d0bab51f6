//! A map from texts to values, kept as a list of entries.

use vstd::prelude::*;

verus! {

/// A map keyed by text. Of the entries under one key the last counts.
#[derive(Debug)]
pub struct TextMap<V> {
    pub entries: Vec<(String, V)>,
}

/// The map that a list of entries stands for: each entry in turn is put
/// under its key.
pub open spec fn entries_view<V: View>(entries: Seq<(String, V)>) -> Map<Seq<char>, V::V>
    decreases entries.len(),
{
    if entries.len() == 0 {
        Map::empty()
    } else {
        entries_view(entries.drop_last()).insert(entries.last().0@, entries.last().1@)
    }
}

impl<V: View> View for TextMap<V> {
    type V = Map<Seq<char>, V::V>;

    open spec fn view(&self) -> Map<Seq<char>, V::V> {
        entries_view(self.entries@)
    }
}

/// Whether `i` is the last place at which the entries hold the key.
pub open spec fn last_at<V>(entries: Seq<(String, V)>, key: Seq<char>, i: int) -> bool {
    &&& 0 <= i < entries.len()
    &&& entries[i].0@ == key
    &&& forall|k: int| i < k < entries.len() ==> entries[k].0@ != key
}

/// Whether no entry has the key.
pub open spec fn lacks<V>(entries: Seq<(String, V)>, key: Seq<char>) -> bool {
    forall|k: int| 0 <= k < entries.len() ==> entries[k].0@ != key
}

/// A key that no entry has is not in the map.
pub proof fn lemma_lacks<V: View>(entries: Seq<(String, V)>, key: Seq<char>)
    requires
        lacks(entries, key),
    ensures
        !entries_view(entries).contains_key(key),
    decreases entries.len(),
{
    if entries.len() > 0 {
        assert(entries.last() == entries[entries.len() - 1]);
        assert forall|k: int| 0 <= k < entries.drop_last().len() implies entries.drop_last()[k].0@
            != key by {
            assert(entries.drop_last()[k] == entries[k]);
        }
        lemma_lacks(entries.drop_last(), key);
    }
}

/// The map holds under a key the value of the last entry with that key.
pub proof fn lemma_last_at<V: View>(entries: Seq<(String, V)>, key: Seq<char>, i: int)
    requires
        last_at(entries, key, i),
    ensures
        entries_view(entries).contains_key(key),
        entries_view(entries)[key] == entries[i].1@,
    decreases entries.len(),
{
    assert(entries.last() == entries[entries.len() - 1]);
    if i < entries.len() - 1 {
        let rest = entries.drop_last();
        assert(rest[i] == entries[i]);
        assert forall|k: int| i < k < rest.len() implies rest[k].0@ != key by {
            assert(rest[k] == entries[k]);
        }
        lemma_last_at(rest, key, i);
    }
}

/// Taking out an entry with the key leaves what the map holds under other
/// keys.
pub proof fn lemma_remove_entry<V: View>(entries: Seq<(String, V)>, key: Seq<char>, i: int)
    requires
        0 <= i < entries.len(),
        entries[i].0@ == key,
    ensures
        entries_view(entries.remove(i)).remove(key) == entries_view(entries).remove(key),
    decreases entries.len(),
{
    let rest = entries.drop_last();
    let last = entries.last();
    assert(last == entries[entries.len() - 1]);
    if i == entries.len() - 1 {
        assert(entries.remove(i) =~= rest);
        assert(entries_view(rest).remove(key) =~= entries_view(entries).remove(key));
    } else {
        assert(entries.remove(i).drop_last() =~= rest.remove(i));
        assert(entries.remove(i).last() == last);
        assert(rest[i] == entries[i]);
        lemma_remove_entry(rest, key, i);
        assert(entries_view(entries.remove(i)).remove(key) =~= entries_view(rest.remove(i)).remove(
            key,
        ).insert(last.0@, last.1@).remove(key));
        assert(entries_view(entries).remove(key) =~= entries_view(rest).remove(key).insert(
            last.0@,
            last.1@,
        ).remove(key));
    }
}

impl<V: View> TextMap<V> {
    pub fn new() -> (m: TextMap<V>)
        ensures
            m@ == Map::<Seq<char>, V::V>::empty(),
    {
        TextMap { entries: Vec::new() }
    }

    /// The place of the entry that counts for the key.
    pub fn find(&self, key: &str) -> (r: Option<usize>)
        ensures
            match r {
                Some(i) => last_at(self.entries@, key@, i as int) && self@.contains_key(key@)
                    && self@[key@] == self.entries@[i as int].1@,
                None => lacks(self.entries@, key@) && !self@.contains_key(key@),
            },
    {
        let wanted: String = key.to_owned();
        let mut i: usize = self.entries.len();
        while i > 0
            invariant
                i <= self.entries.len(),
                wanted@ == key@,
                forall|k: int| i <= k < self.entries@.len() ==> self.entries@[k].0@ != key@,
            decreases i,
        {
            i -= 1;
            if self.entries[i].0 == wanted {
                proof {
                    lemma_last_at(self.entries@, key@, i as int);
                }
                return Some(i);
            }
        }
        proof {
            lemma_lacks(self.entries@, key@);
        }
        None
    }

    /// Whether the map holds a value under the key.
    pub fn contains_key(&self, key: &str) -> (r: bool)
        ensures
            r == self@.contains_key(key@),
    {
        match self.find(key) {
            Some(_) => true,
            None => false,
        }
    }

    /// The value under the key.
    pub fn get(&self, key: &str) -> (r: Option<&V>)
        ensures
            match r {
                Some(v) => self@.contains_key(key@) && self@[key@] == v@,
                None => !self@.contains_key(key@),
            },
    {
        match self.find(key) {
            Some(i) => Some(&self.entries[i].1),
            None => None,
        }
    }

    /// Takes the key out of the map.
    pub fn remove(&mut self, key: &str)
        ensures
            final(self)@ == old(self)@.remove(key@),
    {
        let wanted: String = key.to_owned();
        let mut i: usize = 0;
        while i < self.entries.len()
            invariant
                i <= self.entries.len(),
                wanted@ == key@,
                forall|k: int| 0 <= k < i ==> self.entries@[k].0@ != key@,
                self@.remove(key@) == old(self)@.remove(key@),
            decreases self.entries.len() - i,
        {
            if self.entries[i].0 == wanted {
                proof {
                    lemma_remove_entry(self.entries@, key@, i as int);
                }
                self.entries.remove(i);
            } else {
                i += 1;
            }
        }
        proof {
            lemma_lacks(self.entries@, key@);
            assert(self@.remove(key@) =~= self@);
        }
    }

    /// Puts the value under the key, in place of what was there.
    pub fn insert(&mut self, key: String, value: V)
        ensures
            final(self)@ == old(self)@.insert(key@, value@),
    {
        self.remove(key.as_str());
        let ghost before = self.entries@;
        self.entries.push((key, value));
        proof {
            assert(self.entries@.drop_last() =~= before);
            assert(self@ =~= old(self)@.insert(key@, value@));
        }
    }
}

} // verus!
