//! Piles of cards: building, shuffling, sorting, dealing and removing.

use crate::card::{card_key, card_ord, order_of, strength, Card, Suit};
use crate::error::GameError;
use rand::seq::SliceRandom;
use std::cmp::Ordering;
use vstd::multiset::Multiset;
use vstd::prelude::*;

verus! {

/// An ordered pile of cards.
#[derive(Debug, PartialEq, Eq)]
pub struct Deck(pub Vec<Card>);

impl View for Deck {
    type V = Seq<Card>;

    open spec fn view(&self) -> Seq<Card> {
        self.0@
    }
}

impl From<Vec<Card>> for Deck {
    fn from(cards: Vec<Card>) -> (d: Deck) {
        Deck(cards)
    }
}

impl vstd::std_specs::convert::FromSpecImpl<Vec<Card>> for Deck {
    open spec fn obeys_from_spec() -> bool {
        true
    }

    open spec fn from_spec(cards: Vec<Card>) -> Deck {
        Deck(cards)
    }
}

/// The full deck with `jokers` free jokers behind the 52 numbered cards, which
/// come suit by suit, each from ace to king.
pub open spec fn full_deck(jokers: nat) -> Seq<Card> {
    Seq::new(
        52 + jokers,
        |i: int|
            if i < 52 {
                Card::Number(Suit::all()[i / 13], (i % 13 + 1) as u8)
            } else {
                Card::Joker(None)
            },
    )
}

/// The cards that the player at seat `k` of `n` gets when `cards` are dealt
/// one by one around the table, in the order in which they come.
pub open spec fn dealt(cards: Seq<Card>, n: int, k: int) -> Seq<Card>
    decreases cards.len(),
{
    if cards.len() == 0 {
        Seq::empty()
    } else if (cards.len() - 1) % n == k {
        dealt(cards.drop_last(), n, k).push(cards.last())
    } else {
        dealt(cards.drop_last(), n, k)
    }
}

/// Whether `i` is the first place at which `cards` holds `c`.
pub open spec fn first_at(cards: Seq<Card>, c: Card, i: int) -> bool {
    &&& 0 <= i < cards.len()
    &&& cards[i] == c
    &&& forall|k: int| 0 <= k < i ==> cards[k] != c
}

/// The pile without the first `c` in it; the pile itself where it holds none.
pub open spec fn without(cards: Seq<Card>, c: Card) -> Seq<Card> {
    if cards.contains(c) {
        cards.remove(choose|i: int| first_at(cards, c, i))
    } else {
        cards
    }
}

/// Whether the pile holds each of `removes`, a card named twice at least
/// twice.
pub open spec fn holds_all(cards: Seq<Card>, removes: Seq<Card>) -> bool
    decreases removes.len(),
{
    removes.len() == 0 || (cards.contains(removes[0]) && holds_all(
        without(cards, removes[0]),
        removes.drop_first(),
    ))
}

/// The pile after each of `removes` in turn has left it, each time the first
/// card of that value.
pub open spec fn without_all(cards: Seq<Card>, removes: Seq<Card>) -> Seq<Card>
    decreases removes.len(),
{
    if removes.len() == 0 {
        cards
    } else {
        without_all(without(cards, removes[0]), removes.drop_first())
    }
}

/// The strength of the weakest card of a group; 14 for no cards.
pub open spec fn lowest_key(cards: Seq<Card>) -> int
    decreases cards.len(),
{
    if cards.len() == 0 {
        14
    } else {
        let rest = lowest_key(cards.drop_last());
        if card_key(cards.last()) < rest {
            card_key(cards.last())
        } else {
            rest
        }
    }
}

/// How a group of cards stands to another: by their weakest cards, and level
/// where either group is empty.
pub open spec fn group_order(lhs: Seq<Card>, rhs: Seq<Card>) -> Ordering {
    if lhs.len() == 0 || rhs.len() == 0 {
        Ordering::Equal
    } else {
        order_of(lowest_key(lhs), lowest_key(rhs))
    }
}

/// Whether `ord` compares cards by the measure `key`: whatever it answers for
/// two cards is how their measures stand to each other.
pub open spec fn keyed<F: Fn(&Card, &Card) -> Ordering>(ord: F, key: spec_fn(Card) -> int) -> bool {
    forall|a: Card, b: Card, o: Ordering|
        ord.ensures((&a, &b), o) ==> o == order_of(key(a), key(b))
}

/// Whether `from` says for each place of `after` a place of `before` that
/// holds the same card, and no place twice: `after` is `before` in another
/// order.
pub open spec fn moved(after: Seq<Card>, before: Seq<Card>, from: Seq<int>) -> bool {
    &&& after.len() == before.len()
    &&& from.len() == after.len()
    &&& from.no_duplicates()
    &&& forall|k: int|
        0 <= k < after.len() ==> 0 <= #[trigger] from[k] < before.len() && after[k]
            == before[from[k]]
}

/// Whether the card at `a` may stand before the card at `b`: it measures no
/// more, and where they measure the same it came from an earlier place.
pub open spec fn in_order(
    v: Seq<Card>,
    from: Seq<int>,
    key: spec_fn(Card) -> int,
    a: int,
    b: int,
) -> bool {
    key(v[a]) <= key(v[b]) && (key(v[a]) == key(v[b]) ==> from[a] < from[b])
}

/// Whether the pile is sorted by the measure `key`, cards of one measure in
/// the order of the places they came from.
pub open spec fn stably_sorted(v: Seq<Card>, from: Seq<int>, key: spec_fn(Card) -> int) -> bool {
    forall|a: int, b: int| 0 <= a < b < v.len() ==> in_order(v, from, key, a, b)
}

/// Whether the pile is what a stable sort by `ord` makes of `before`: the
/// same cards in another order, and for every measure that `ord` compares by,
/// sorted by it, cards of one measure in the order they had.
pub open spec fn sorted_from<F: Fn(&Card, &Card) -> Ordering>(
    after: Seq<Card>,
    before: Seq<Card>,
    ord: F,
) -> bool {
    &&& after.to_multiset() == before.to_multiset()
    &&& exists|from: Seq<int>|
        {
            &&& moved(after, before, from)
            &&& forall|key: spec_fn(Card) -> int|
                keyed(ord, key) ==> stably_sorted(after, from, key)
        }
}

/// The measure of a card that is its strength.
pub open spec fn by_strength() -> spec_fn(Card) -> int {
    |c: Card| card_key(c)
}

/// Whether the pile is `before` sorted by strength, cards of one strength in
/// the order they had.
pub open spec fn stable_by_strength(after: Seq<Card>, before: Seq<Card>) -> bool {
    exists|from: Seq<int>| moved(after, before, from) && stably_sorted(after, from, by_strength())
}

/// The first `i` cards are sorted among themselves.
spec fn sorted_to(v: Seq<Card>, from: Seq<int>, key: spec_fn(Card) -> int, i: int) -> bool {
    forall|a: int, b: int| 0 <= a < b < i ==> in_order(v, from, key, a, b)
}

/// The cards up to place `i` are sorted among themselves but for the card at
/// `j`, which is weaker than all that follow it up to `i`.
spec fn inserting_at(
    v: Seq<Card>,
    from: Seq<int>,
    key: spec_fn(Card) -> int,
    i: int,
    j: int,
) -> bool {
    &&& forall|a: int, b: int| 0 <= a < b <= i && a != j && b != j ==> in_order(v, from, key, a, b)
    &&& forall|b: int| j < b <= i ==> key(v[j]) < key(#[trigger] v[b])
}

/// The first `i` cards are sorted among themselves.
spec fn sorted_upto(v: Seq<Card>, from: Seq<int>, key: spec_fn(Card) -> int, i: usize) -> bool {
    sorted_to(v, from, key, i as int)
}

/// The cards up to place `i` are sorted among themselves.
spec fn sorted_through(v: Seq<Card>, from: Seq<int>, key: spec_fn(Card) -> int, i: usize) -> bool {
    sorted_to(v, from, key, i + 1)
}

/// The cards up to place `i` are sorted among themselves but for the card at
/// `j`, which is weaker than all that follow it up to `i`.
spec fn inserting(
    v: Seq<Card>,
    from: Seq<int>,
    key: spec_fn(Card) -> int,
    i: usize,
    j: usize,
) -> bool {
    inserting_at(v, from, key, i as int, j as int)
}

/// The same for the card one place before `j`.
spec fn inserting_before(
    v: Seq<Card>,
    from: Seq<int>,
    key: spec_fn(Card) -> int,
    i: usize,
    j: usize,
) -> bool {
    inserting_at(v, from, key, i as int, j - 1)
}

/// The card at `j` measures no less than the card before it.
spec fn settled(v: Seq<Card>, key: spec_fn(Card) -> int, j: usize) -> bool {
    j > 0 && key(v[j - 1]) <= key(v[j as int])
}

/// The places that the first `i` cards and the card at `i` came from are none
/// after `i`, the cards after `i` are where they were, and the card at `j`
/// came from `i`.
spec fn placed(from: Seq<int>, i: usize, j: usize) -> bool {
    &&& forall|k: int| 0 <= k <= i && k < from.len() ==> 0 <= #[trigger] from[k] <= i
    &&& forall|k: int| i < k < from.len() ==> #[trigger] from[k] == k
    &&& j <= i < from.len()
    &&& from[j as int] == i
}

/// The same for the card one place before `j`.
spec fn placed_before(from: Seq<int>, i: usize, j: usize) -> bool {
    &&& forall|k: int| 0 <= k <= i && k < from.len() ==> 0 <= #[trigger] from[k] <= i
    &&& forall|k: int| i < k < from.len() ==> #[trigger] from[k] == k
    &&& 0 < j <= i < from.len()
    &&& from[j - 1] == i
}

/// The places after the cards at `j - 1` and `j` have changed places.
spec fn swapped(from: Seq<int>, j: usize) -> Seq<int> {
    from.update(j - 1, from[j as int]).update(j as int, from[j - 1])
}

/// The cards after the cards at `j - 1` and `j` have changed places.
spec fn swapped_cards(v: Seq<Card>, j: usize) -> Seq<Card> {
    v.update(j - 1, v[j as int]).update(j as int, v[j - 1])
}

/// Two neighbours that change places leave the pile the same cards, from the
/// places that changed with them.
proof fn lemma_swapped(v: Seq<Card>, before: Seq<Card>, from: Seq<int>, j: usize)
    requires
        moved(v, before, from),
        0 < j < v.len(),
    ensures
        moved(swapped_cards(v, j), before, swapped(from, j)),
        swapped_cards(v, j).to_multiset() == v.to_multiset(),
{
    broadcast use vstd::multiset::group_multiset_axioms;

    let w = swapped_cards(v, j);
    let g = swapped(from, j);
    assert forall|a: int, b: int| 0 <= a < g.len() && 0 <= b < g.len() && a != b implies g[a]
        != g[b] by {
        let a0 = if a == j { j - 1 } else if a == j - 1 { j as int } else { a };
        let b0 = if b == j { j - 1 } else if b == j - 1 { j as int } else { b };
        assert(g[a] == from[a0]);
        assert(g[b] == from[b0]);
        assert(a0 != b0);
    }
    let mid = v.update(j - 1, v[j as int]);
    vstd::seq_lib::to_multiset_update(v, j - 1, v[j as int]);
    vstd::seq_lib::to_multiset_update(mid, j as int, v[j - 1]);
    vstd::seq_lib::to_multiset_contains(v, v[j as int]);
    vstd::seq_lib::to_multiset_contains(v, v[j - 1]);
    vstd::seq_lib::to_multiset_contains(mid, mid[j as int]);
    assert(mid[j as int] == v[j as int]);
    assert(w.to_multiset() =~= v.to_multiset());
}

/// The cards of the pile of strength `k`, in their order.
pub open spec fn of_strength(cards: Seq<Card>, k: int) -> Seq<Card> {
    cards.filter(|x: Card| card_key(x) == k)
}

/// The cards of the pile that are weaker than `k`, in their order.
pub open spec fn weaker_than(cards: Seq<Card>, k: int) -> Seq<Card> {
    cards.filter(|x: Card| card_key(x) < k)
}

/// The cards of the pile that are weaker than `k`, sorted by strength, cards
/// of one strength in the order they had.
pub open spec fn arranged_below(cards: Seq<Card>, k: int) -> Seq<Card>
    decreases k,
{
    if k <= 0 {
        Seq::empty()
    } else {
        arranged_below(cards, k - 1) + of_strength(cards, k - 1)
    }
}

/// The pile sorted by strength, weakest card first, cards of one strength in
/// the order they had.
pub open spec fn arranged(cards: Seq<Card>) -> Seq<Card> {
    arranged_below(cards, 14)
}

/// Whether `play` is strictly above `top`, or strictly below it where the
/// order is reversed.
pub open spec fn beats_top(play: Seq<Card>, top: Seq<Card>, reversed: bool) -> bool {
    if reversed {
        group_order(play, top) == Ordering::Less
    } else {
        group_order(play, top) == Ordering::Greater
    }
}

/// A copy of the cards.
pub fn copy_cards(cards: &[Card]) -> (r: Vec<Card>)
    ensures
        r@ == cards@,
{
    let mut r: Vec<Card> = Vec::new();
    let mut i: usize = 0;
    while i < cards.len()
        invariant
            i <= cards.len(),
            r@ == cards@.take(i as int),
        decreases cards.len() - i,
    {
        r.push(cards[i]);
        assert(r@ =~= cards@.take(i + 1));
        i += 1;
    }
    assert(cards@.take(cards@.len() as int) =~= cards@);
    r
}

/// The first place at which the pile holds the card.
pub fn position(cards: &[Card], c: &Card) -> (r: Option<usize>)
    ensures
        match r {
            Some(i) => first_at(cards@, *c, i as int),
            None => !cards@.contains(*c),
        },
{
    let mut i: usize = 0;
    while i < cards.len()
        invariant
            i <= cards.len(),
            forall|k: int| 0 <= k < i ==> cards@[k] != *c,
        decreases cards.len() - i,
    {
        if cards[i] == *c {
            return Some(i);
        }
        i += 1;
    }
    None
}

/// The first place of a card in a pile is one place only.
pub proof fn lemma_first_at_unique(cards: Seq<Card>, c: Card, i: int)
    requires
        first_at(cards, c, i),
    ensures
        cards.contains(c),
        without(cards, c) == cards.remove(i),
{
    let j = choose|j: int| first_at(cards, c, j);
    assert(first_at(cards, c, j));
    assert(i == j) by {
        if i < j {
            assert(cards[i] != c);
        }
        if j < i {
            assert(cards[j] != c);
        }
    }
}

/// Takes each of `removes` out of `items`, each time the first card of that
/// value, or changes nothing where `items` lacks one of them.
pub fn remove_items(items: &mut Vec<Card>, removes: &[Card]) -> (r: Result<(), GameError>)
    ensures
        holds_all(old(items)@, removes@) ==> r is Ok && final(items)@ == without_all(
            old(items)@,
            removes@,
        ),
        !holds_all(old(items)@, removes@) ==> r == Err::<(), GameError>(GameError::NotFound)
            && final(items)@ == old(items)@,
{
    let mut rest: Vec<Card> = copy_cards(items.as_slice());
    let mut i: usize = 0;
    assert(removes@.skip(0) =~= removes@);
    while i < removes.len()
        invariant
            i <= removes.len(),
            holds_all(old(items)@, removes@) == holds_all(rest@, removes@.skip(i as int)),
            without_all(old(items)@, removes@) == without_all(rest@, removes@.skip(i as int)),
            items@ == old(items)@,
        decreases removes.len() - i,
    {
        let ghost tail = removes@.skip(i as int);
        assert(tail[0] == removes@[i as int]);
        assert(tail.drop_first() =~= removes@.skip(i + 1));
        match position(rest.as_slice(), &removes[i]) {
            Some(at) => {
                proof {
                    lemma_first_at_unique(rest@, removes@[i as int], at as int);
                }
                rest.remove(at);
            },
            None => {
                return Err(GameError::NotFound);
            },
        }
        i += 1;
    }
    assert(removes@.skip(removes@.len() as int).len() == 0);
    *items = rest;
    Ok(())
}

/// Shuffles the cards in place. This calls `SliceRandom::shuffle` of the crate
/// rand with the thread's generator. That function swaps cards pair by pair,
/// so the pile holds the same cards afterwards, each as often as before; of
/// their order nothing is claimed.
#[verifier::external_body]
fn shuffle_cards(cards: &mut Vec<Card>)
    ensures
        final(cards)@.to_multiset() == old(cards)@.to_multiset(),
{
    let mut rng = rand::thread_rng();
    cards.shuffle(&mut rng);
}

impl Deck {
    pub fn new(cards: Vec<Card>) -> (d: Deck)
        ensures
            d@ == cards@,
    {
        Deck(cards)
    }

    /// The 52 numbered cards and `jokers` free jokers.
    pub fn all(jokers: usize) -> (d: Deck)
        requires
            52 + jokers <= usize::MAX,
        ensures
            d@ == full_deck(jokers as nat),
    {
        let mut cards: Vec<Card> = Vec::new();
        let all_suits = Suit::suits();
        let mut s: usize = 0;
        while s < 4
            invariant
                s <= 4,
                all_suits@ == Suit::all(),
                cards@.len() == s * 13,
                forall|i: int| 0 <= i < cards@.len() ==> cards@[i] == full_deck(jokers as nat)[i],
            decreases 4 - s,
        {
            let mut number: u8 = 1;
            while number <= 13
                invariant
                    s < 4,
                    1 <= number <= 14,
                    all_suits@ == Suit::all(),
                    cards@.len() == s * 13 + (number - 1),
                    forall|i: int|
                        0 <= i < cards@.len() ==> cards@[i] == full_deck(jokers as nat)[i],
                decreases 14 - number,
            {
                cards.push(Card::Number(all_suits[s], number));
                number += 1;
            }
            s += 1;
        }
        let mut j: usize = 0;
        while j < jokers
            invariant
                j <= jokers,
                52 + jokers <= usize::MAX,
                cards@.len() == 52 + j,
                forall|i: int| 0 <= i < cards@.len() ==> cards@[i] == full_deck(jokers as nat)[i],
            decreases jokers - j,
        {
            cards.push(Card::Joker(None));
            j += 1;
        }
        assert(cards@ =~= full_deck(jokers as nat));
        Deck(cards)
    }

    /// Shuffles the pile: it holds the same cards afterwards, in an order
    /// that chance decides.
    pub fn shuffle(&mut self)
        ensures
            final(self)@.to_multiset() == old(self)@.to_multiset(),
    {
        shuffle_cards(&mut self.0);
    }

    /// Sorts the pile by `ord`, cards that `ord` holds level staying in their
    /// order.
    pub fn sort<F: Fn(&Card, &Card) -> Ordering>(&mut self, ord: F)
        requires
            forall|a: Card, b: Card| ord.requires((&a, &b)),
        ensures
            sorted_from(final(self)@, old(self)@, ord),
    {
        let n: usize = self.0.len();
        let ghost mut from: Seq<int> = Seq::new(old(self)@.len(), |k: int| k);
        if n < 2 {
            proof {
                assert(moved(self@, old(self)@, from));
                assert forall|key: spec_fn(Card) -> int| keyed(ord, key) implies stably_sorted(
                    self@,
                    from,
                    key,
                ) by {}
            }
            return;
        }
        let mut i: usize = 1;
        while i < n
            invariant
                1 <= i <= n,
                n == self.0@.len(),
                n == old(self)@.len(),
                forall|a: Card, b: Card| ord.requires((&a, &b)),
                moved(self@, old(self)@, from),
                self@.to_multiset() == old(self)@.to_multiset(),
                forall|k: int| 0 <= k < i ==> 0 <= #[trigger] from[k] < i,
                forall|k: int| i <= k < n ==> #[trigger] from[k] == k,
                forall|key: spec_fn(Card) -> int|
                    keyed(ord, key) ==> sorted_upto(self@, from, key, i),
            decreases n - i,
        {
            let mut j: usize = i;
            let mut moving: bool = true;
            proof {
                assert(placed(from, i, j));
                assert forall|key: spec_fn(Card) -> int| keyed(ord, key) implies inserting(
                    self@,
                    from,
                    key,
                    i,
                    j,
                ) by {
                    assert(sorted_upto(self@, from, key, i));
                }
            }
            while j > 0 && moving
                invariant
                    j <= i < n,
                    n == self.0@.len(),
                    n == old(self)@.len(),
                    forall|a: Card, b: Card| ord.requires((&a, &b)),
                    moved(self@, old(self)@, from),
                    self@.to_multiset() == old(self)@.to_multiset(),
                    placed(from, i, j),
                    forall|key: spec_fn(Card) -> int|
                        keyed(ord, key) ==> inserting(self@, from, key, i, j),
                    !moving ==> forall|key: spec_fn(Card) -> int|
                        keyed(ord, key) ==> settled(self@, key, j),
                decreases j + (if moving { 1int } else { 0int }),
            {
                let x: Card = self.0[j];
                let y: Card = self.0[j - 1];
                match ord(&x, &y) {
                    Ordering::Less => {
                        let ghost before = self@;
                        let ghost places = from;
                        self.0.set(j - 1, x);
                        self.0.set(j, y);
                        proof {
                            lemma_swapped(before, old(self)@, places, j);
                            from = swapped(places, j);
                            assert(self@ =~= swapped_cards(before, j));
                            assert(placed_before(from, i, j));
                            assert forall|key: spec_fn(Card) -> int|
                                keyed(ord, key) implies inserting_before(
                                self@,
                                from,
                                key,
                                i,
                                j,
                            ) by {
                                assert(inserting(before, places, key, i, j));
                                assert(key(x) < key(y));
                                lemma_inserting_step(before, places, key, i, j);
                            }
                        }
                        j -= 1;
                    },
                    _ => {
                        moving = false;
                        proof {
                            assert forall|key: spec_fn(Card) -> int|
                                keyed(ord, key) implies settled(self@, key, j) by {
                                assert(key(y) <= key(x));
                            }
                        }
                    },
                }
            }
            proof {
                assert forall|key: spec_fn(Card) -> int| keyed(ord, key) implies sorted_through(
                    self@,
                    from,
                    key,
                    i,
                ) by {
                    assert(inserting(self@, from, key, i, j));
                    if j > 0 {
                        assert(settled(self@, key, j));
                    }
                    lemma_inserted(self@, from, key, i, j);
                }
            }
            i += 1;
        }
        proof {
            assert forall|key: spec_fn(Card) -> int| keyed(ord, key) implies stably_sorted(
                self@,
                from,
                key,
            ) by {
                assert(sorted_upto(self@, from, key, n));
            }
        }
    }

    /// Sorts the pile by strength, weakest card first, cards of one strength
    /// staying in their order.
    pub fn arrange(&mut self)
        ensures
            final(self)@ == arranged(old(self)@),
            stable_by_strength(final(self)@, old(self)@),
    {
        self.sort(card_ord);
        proof {
            lemma_sort_by_card_ord(self@, old(self)@);
            lemma_arranged_is_stable(old(self)@);
        }
    }

    /// Deals the pile one card at a time to `n` new piles in turn.
    pub fn split(&self, n: usize) -> (r: Result<Vec<Deck>, GameError>)
        ensures
            n == 0 ==> r == Err::<Vec<Deck>, GameError>(GameError::PlayersEmpty),
            n > 0 ==> r is Ok && r->Ok_0@.len() == n && forall|k: int|
                0 <= k < n ==> (#[trigger] r->Ok_0@[k])@ == dealt(self@, n as int, k),
    {
        if n == 0 {
            return Err(GameError::PlayersEmpty);
        }
        let mut decks: Vec<Deck> = Vec::new();
        let mut k: usize = 0;
        while k < n
            invariant
                k <= n,
                decks@.len() == k,
                forall|j: int| 0 <= j < k ==> (#[trigger] decks@[j])@ == Seq::<Card>::empty(),
            decreases n - k,
        {
            decks.push(Deck(Vec::new()));
            k += 1;
        }
        let mut i: usize = 0;
        while i < self.0.len()
            invariant
                n > 0,
                i <= self.0.len(),
                decks@.len() == n,
                forall|j: int|
                    0 <= j < n ==> (#[trigger] decks@[j])@ == dealt(
                        self@.take(i as int),
                        n as int,
                        j,
                    ),
            decreases self.0.len() - i,
        {
            let ghost before = decks@;
            let card = self.0[i];
            let seat: usize = i % n;
            let mut pile: Vec<Card> = copy_cards(decks[seat].0.as_slice());
            pile.push(card);
            decks.set(seat, Deck(pile));
            proof {
                let now = self@.take(i + 1);
                assert(now.drop_last() =~= self@.take(i as int));
                assert(now.last() == card);
                assert forall|j: int| 0 <= j < n implies (#[trigger] decks@[j])@ == dealt(
                    now,
                    n as int,
                    j,
                ) by {
                    if j == seat {
                        assert(decks@[j]@ == before[j]@.push(card));
                    } else {
                        assert(decks@[j] == before[j]);
                    }
                }
            }
            i += 1;
        }
        assert(self@.take(self@.len() as int) =~= self@);
        Ok(decks)
    }

    /// Takes the given cards out of the pile, or none where it lacks one.
    pub fn remove(&mut self, cards: &[Card]) -> (r: Result<(), GameError>)
        ensures
            holds_all(old(self)@, cards@) ==> r is Ok && final(self)@ == without_all(
                old(self)@,
                cards@,
            ),
            !holds_all(old(self)@, cards@) ==> r == Err::<(), GameError>(GameError::NotFound)
                && final(self)@ == old(self)@,
    {
        remove_items(&mut self.0, cards)
    }
}

/// The cards weaker than `k` are those weaker than `k - 1` and those of
/// strength `k - 1`.
proof fn lemma_weaker_than_step(cards: Seq<Card>, k: int)
    ensures
        weaker_than(cards, k).to_multiset() == weaker_than(cards, k - 1).to_multiset().add(
            of_strength(cards, k - 1).to_multiset(),
        ),
    decreases cards.len(),
{
    reveal(Seq::filter);
    broadcast use vstd::multiset::group_multiset_axioms;

    if cards.len() == 0 {
        assert(weaker_than(cards, k) =~= Seq::<Card>::empty());
        assert(weaker_than(cards, k - 1) =~= Seq::<Card>::empty());
        assert(of_strength(cards, k - 1) =~= Seq::<Card>::empty());
        assert(Seq::<Card>::empty().to_multiset() =~= Multiset::<Card>::empty()) by {
            vstd::seq_lib::to_multiset_len(Seq::<Card>::empty());
        }
        assert(weaker_than(cards, k).to_multiset() =~= weaker_than(cards, k - 1).to_multiset().add(
            of_strength(cards, k - 1).to_multiset(),
        ));
    } else {
        let rest = cards.drop_last();
        let c = cards.last();
        lemma_weaker_than_step(rest, k);
        vstd::seq_lib::to_multiset_build(weaker_than(rest, k), c);
        vstd::seq_lib::to_multiset_build(weaker_than(rest, k - 1), c);
        vstd::seq_lib::to_multiset_build(of_strength(rest, k - 1), c);
        assert(weaker_than(cards, k).to_multiset() =~= weaker_than(cards, k - 1).to_multiset().add(
            of_strength(cards, k - 1).to_multiset(),
        ));
    }
}

/// Sorting by strength keeps the cards weaker than `k`.
proof fn lemma_arranged_below(cards: Seq<Card>, k: int)
    requires
        0 <= k,
    ensures
        arranged_below(cards, k).to_multiset() == weaker_than(cards, k).to_multiset(),
    decreases k,
{
    if k == 0 {
        lemma_weaker_than_none(cards);
    } else {
        lemma_arranged_below(cards, k - 1);
        lemma_weaker_than_step(cards, k);
        vstd::seq_lib::lemma_multiset_commutative(
            arranged_below(cards, k - 1),
            of_strength(cards, k - 1),
        );
    }
}

/// No card is weaker than the weakest strength.
proof fn lemma_weaker_than_none(cards: Seq<Card>)
    ensures
        weaker_than(cards, 0) == Seq::<Card>::empty(),
    decreases cards.len(),
{
    reveal(Seq::filter);
    if cards.len() > 0 {
        lemma_weaker_than_none(cards.drop_last());
    }
}

/// Every card is weaker than 14.
proof fn lemma_weaker_than_all(cards: Seq<Card>)
    ensures
        weaker_than(cards, 14) == cards,
    decreases cards.len(),
{
    reveal(Seq::filter);
    if cards.len() > 0 {
        lemma_weaker_than_all(cards.drop_last());
        assert(cards.drop_last().push(cards.last()) =~= cards);
    }
}

/// The cards weaker than `k`, sorted by strength, are weaker than `k` and
/// none of them is stronger than a later one.
proof fn lemma_arranged_below_sorted(cards: Seq<Card>, k: int)
    requires
        0 <= k,
    ensures
        forall|i: int|
            0 <= i < arranged_below(cards, k).len() ==> card_key(
                #[trigger] arranged_below(cards, k)[i],
            ) < k,
        forall|i: int, j: int|
            0 <= i < j < arranged_below(cards, k).len() ==> card_key(arranged_below(cards, k)[i])
                <= card_key(arranged_below(cards, k)[j]),
    decreases k,
{
    if k > 0 {
        lemma_arranged_below_sorted(cards, k - 1);
        let low = arranged_below(cards, k - 1);
        let top = of_strength(cards, k - 1);
        cards.filter_lemma(|x: Card| card_key(x) == k - 1);
        let all = arranged_below(cards, k);
        assert(all == low + top);
        assert forall|i: int| 0 <= i < all.len() implies card_key(#[trigger] all[i]) < k by {
            if i < low.len() {
                assert(all[i] == low[i]);
            } else {
                assert(all[i] == top[i - low.len()]);
            }
        }
        assert forall|i: int, j: int| 0 <= i < j < all.len() implies card_key(all[i]) <= card_key(
            all[j],
        ) by {
            if j < low.len() {
                assert(all[i] == low[i] && all[j] == low[j]);
            } else if i < low.len() {
                assert(all[i] == low[i]);
                assert(all[j] == top[j - low.len()]);
            } else {
                assert(all[i] == top[i - low.len()]);
                assert(all[j] == top[j - low.len()]);
            }
        }
    }
}

/// In a sorted pile no card is stronger than a later one.
pub proof fn lemma_arranged_is_sorted(cards: Seq<Card>)
    ensures
        forall|i: int, j: int|
            0 <= i < j < arranged(cards).len() ==> card_key(arranged(cards)[i]) <= card_key(
                arranged(cards)[j],
            ),
{
    lemma_arranged_below_sorted(cards, 14);
}

/// A sorted pile holds the cards of the pile it was made from, each as often.
pub proof fn lemma_arranged_keeps_cards(cards: Seq<Card>)
    ensures
        arranged(cards).to_multiset() == cards.to_multiset(),
        arranged(cards).len() == cards.len(),
{
    lemma_arranged_below(cards, 14);
    lemma_weaker_than_all(cards);
    vstd::seq_lib::to_multiset_len(arranged(cards));
    vstd::seq_lib::to_multiset_len(cards);
}

/// A card that moves one place down past a stronger card is still the only
/// card out of order.
proof fn lemma_inserting_step(
    v: Seq<Card>,
    from: Seq<int>,
    key: spec_fn(Card) -> int,
    i: usize,
    j: usize,
)
    requires
        0 < j <= i < v.len(),
        from.len() == v.len(),
        inserting(v, from, key, i, j),
        key(v[j as int]) < key(v[j - 1]),
    ensures
        inserting_before(swapped_cards(v, j), swapped(from, j), key, i, j),
{
    let w = swapped_cards(v, j);
    let g = swapped(from, j);
    assert forall|a: int, b: int| 0 <= a < b <= i && a != j - 1 && b != j - 1 implies in_order(
        w,
        g,
        key,
        a,
        b,
    ) by {
        let a0 = if a == j { j - 1 } else { a };
        let b0 = if b == j { j - 1 } else { b };
        assert(w[a] == v[a0] && g[a] == from[a0]);
        assert(w[b] == v[b0] && g[b] == from[b0]);
        assert(in_order(v, from, key, a0, b0));
    }
    assert forall|b: int| j - 1 < b <= i implies key(w[j - 1]) < key(#[trigger] w[b]) by {
        if b > j {
            assert(w[b] == v[b]);
        }
    }
}

/// A card that stands behind a card no stronger than itself, and before the
/// cards stronger than itself, stands in order.
proof fn lemma_inserted(v: Seq<Card>, from: Seq<int>, key: spec_fn(Card) -> int, i: usize, j: usize)
    requires
        j <= i < v.len(),
        from.len() == v.len(),
        from.no_duplicates(),
        placed(from, i, j),
        inserting(v, from, key, i, j),
        j > 0 ==> settled(v, key, j),
    ensures
        sorted_through(v, from, key, i),
{
    assert forall|a: int, b: int| 0 <= a < b < i + 1 implies in_order(v, from, key, a, b) by {
        if b == j {
            if a < j - 1 {
                assert(in_order(v, from, key, a, j - 1));
            }
            assert(from[a] != from[j as int]);
            assert(from[a] <= i);
        } else if a == j {
            assert(key(v[j as int]) < key(v[b]));
        }
    }
}

/// Every place of the pile that the cards came from is the place that one of
/// them came from.
proof fn lemma_onto(g: Seq<int>, v: int)
    requires
        g.no_duplicates(),
        forall|k: int| 0 <= k < g.len() ==> 0 <= #[trigger] g[k] < g.len(),
        0 <= v < g.len(),
    ensures
        exists|c: int| 0 <= c < g.len() && g[c] == v,
{
    let range = vstd::set_lib::set_int_range(0, g.len() as int);
    g.unique_seq_to_set();
    vstd::seq_lib::seq_to_set_is_finite(g);
    vstd::set_lib::lemma_int_range(0, g.len() as int);
    assert forall|x: int| g.to_set().contains(x) implies range.contains(x) by {
        let k = choose|k: int| 0 <= k < g.len() && g[k] == x;
        assert(0 <= g[k] < g.len());
    }
    vstd::set_lib::lemma_subset_equality(g.to_set(), range);
    assert(range.contains(v));
    assert(g.to_set().contains(v));
}

/// Whether the card at place `p` of the pile comes before the card at `q`
/// when the pile is sorted by `key`: it measures less, or the same and stands
/// before it.
spec fn goes_first(b: Seq<Card>, key: spec_fn(Card) -> int, p: int, q: int) -> bool {
    key(b[p]) < key(b[q]) || (key(b[p]) == key(b[q]) && p < q)
}

/// Two sorted orders of a pile that agree on the places before `a` cannot
/// have at `a` the one a card that goes before the card of the other.
proof fn lemma_same_next(
    x: Seq<Card>,
    y: Seq<Card>,
    b: Seq<Card>,
    f: Seq<int>,
    g: Seq<int>,
    key: spec_fn(Card) -> int,
    a: int,
)
    requires
        moved(x, b, f),
        stably_sorted(x, f, key),
        moved(y, b, g),
        stably_sorted(y, g, key),
        0 <= a < b.len(),
        forall|c: int| 0 <= c < a ==> f[c] == g[c],
    ensures
        !goes_first(b, key, f[a], g[a]),
{
    if goes_first(b, key, f[a], g[a]) {
        assert(0 <= f[a] < b.len());
        lemma_onto(g, f[a]);
        let c = choose|c: int| 0 <= c < g.len() && g[c] == f[a];
        if c < a {
            assert(f[c] == g[c]);
            assert(f[c] == f[a]);
        } else if c > a {
            assert(in_order(y, g, key, a, c));
            assert(y[a] == b[g[a]]);
            assert(y[c] == b[g[c]]);
        }
    }
}

/// Two sorted orders of a pile hold the cards of the same places up to `a`.
proof fn lemma_same_places(
    x: Seq<Card>,
    y: Seq<Card>,
    b: Seq<Card>,
    f: Seq<int>,
    g: Seq<int>,
    key: spec_fn(Card) -> int,
    a: int,
)
    requires
        moved(x, b, f),
        stably_sorted(x, f, key),
        moved(y, b, g),
        stably_sorted(y, g, key),
        0 <= a <= b.len(),
    ensures
        forall|c: int| 0 <= c < a ==> f[c] == g[c],
    decreases a,
{
    if a > 0 {
        lemma_same_places(x, y, b, f, g, key, a - 1);
        lemma_same_next(x, y, b, f, g, key, a - 1);
        lemma_same_next(y, x, b, g, f, key, a - 1);
        assert(0 <= f[a - 1] < b.len());
        assert(0 <= g[a - 1] < b.len());
    }
}

/// There is one way only to sort a pile by a measure with cards of one
/// measure in the order they had.
pub proof fn lemma_stable_sort_is_one(
    x: Seq<Card>,
    y: Seq<Card>,
    b: Seq<Card>,
    f: Seq<int>,
    g: Seq<int>,
    key: spec_fn(Card) -> int,
)
    requires
        moved(x, b, f),
        stably_sorted(x, f, key),
        moved(y, b, g),
        stably_sorted(y, g, key),
    ensures
        x == y,
{
    lemma_same_places(x, y, b, f, g, key, b.len() as int);
    assert forall|k: int| 0 <= k < x.len() implies x[k] == y[k] by {
        assert(x[k] == b[f[k]]);
        assert(y[k] == b[g[k]]);
    }
    assert(x =~= y);
}

/// Two piles that are one pile sorted by strength, cards of one strength in
/// the order they had, are the same.
pub proof fn lemma_stable_by_strength_is_one(x: Seq<Card>, y: Seq<Card>, b: Seq<Card>)
    requires
        stable_by_strength(x, b),
        stable_by_strength(y, b),
    ensures
        x == y,
{
    let f = choose|f: Seq<int>| moved(x, b, f) && stably_sorted(x, f, by_strength());
    let g = choose|g: Seq<int>| moved(y, b, g) && stably_sorted(y, g, by_strength());
    lemma_stable_sort_is_one(x, y, b, f, g, by_strength());
}

/// The places of the cards of strength `k` in the pile, in their order.
pub open spec fn places_of(cards: Seq<Card>, k: int) -> Seq<int>
    decreases cards.len(),
{
    if cards.len() == 0 {
        Seq::empty()
    } else if card_key(cards.last()) == k {
        places_of(cards.drop_last(), k).push(cards.len() - 1)
    } else {
        places_of(cards.drop_last(), k)
    }
}

/// The places of the cards weaker than `k` in the pile, by strength, and by
/// place for cards of one strength.
pub open spec fn places_below(cards: Seq<Card>, k: int) -> Seq<int>
    decreases k,
{
    if k <= 0 {
        Seq::empty()
    } else {
        places_below(cards, k - 1) + places_of(cards, k - 1)
    }
}

/// The cards of one strength stand at the places of that strength, which
/// rise.
proof fn lemma_places_of(cards: Seq<Card>, k: int)
    ensures
        places_of(cards, k).len() == of_strength(cards, k).len(),
        forall|m: int|
            0 <= m < places_of(cards, k).len() ==> 0 <= #[trigger] places_of(cards, k)[m]
                < cards.len() && of_strength(cards, k)[m] == cards[places_of(cards, k)[m]]
                && card_key(of_strength(cards, k)[m]) == k,
        forall|m: int, n: int|
            0 <= m < n < places_of(cards, k).len() ==> places_of(cards, k)[m] < places_of(
                cards,
                k,
            )[n],
    decreases cards.len(),
{
    reveal(Seq::filter);
    if cards.len() > 0 {
        let rest = cards.drop_last();
        lemma_places_of(rest, k);
        let p = places_of(cards, k);
        let q = places_of(rest, k);
        assert forall|m: int| 0 <= m < p.len() implies 0 <= #[trigger] p[m] < cards.len()
            && of_strength(cards, k)[m] == cards[p[m]] && card_key(of_strength(cards, k)[m])
            == k by {
            if m < q.len() {
                assert(p[m] == q[m]);
                assert(rest[q[m]] == cards[q[m]]);
            }
        }
        assert forall|m: int, n: int| 0 <= m < n < p.len() implies p[m] < p[n] by {
            assert(p[m] == q[m]);
            if n < q.len() {
                assert(p[n] == q[n]);
            }
        }
    }
}

/// The sorted cards weaker than `k` stand at their places, weaker than `k`
/// and in order.
proof fn lemma_places_below(cards: Seq<Card>, k: int)
    requires
        0 <= k,
    ensures
        places_below(cards, k).len() == arranged_below(cards, k).len(),
        forall|m: int|
            0 <= m < places_below(cards, k).len() ==> 0 <= #[trigger] places_below(cards, k)[m]
                < cards.len() && arranged_below(cards, k)[m] == cards[places_below(cards, k)[m]]
                && card_key(arranged_below(cards, k)[m]) < k,
        forall|a: int, b: int|
            0 <= a < b < places_below(cards, k).len() ==> in_order(
                arranged_below(cards, k),
                places_below(cards, k),
                by_strength(),
                a,
                b,
            ),
    decreases k,
{
    if k > 0 {
        lemma_places_below(cards, k - 1);
        lemma_places_of(cards, k - 1);
        let low = arranged_below(cards, k - 1);
        let top = of_strength(cards, k - 1);
        let lp = places_below(cards, k - 1);
        let tp = places_of(cards, k - 1);
        let all = arranged_below(cards, k);
        let ap = places_below(cards, k);
        assert(all == low + top);
        assert(ap == lp + tp);
        assert forall|m: int| 0 <= m < ap.len() implies 0 <= #[trigger] ap[m] < cards.len()
            && all[m] == cards[ap[m]] && card_key(all[m]) < k by {
            if m < lp.len() {
                assert(ap[m] == lp[m] && all[m] == low[m]);
            } else {
                assert(ap[m] == tp[m - lp.len()] && all[m] == top[m - lp.len()]);
            }
        }
        assert forall|a: int, b: int| 0 <= a < b < ap.len() implies in_order(
            all,
            ap,
            by_strength(),
            a,
            b,
        ) by {
            if b < lp.len() {
                assert(ap[a] == lp[a] && all[a] == low[a]);
                assert(ap[b] == lp[b] && all[b] == low[b]);
                assert(in_order(low, lp, by_strength(), a, b));
            } else if a < lp.len() {
                assert(ap[a] == lp[a] && all[a] == low[a]);
                assert(ap[b] == tp[b - lp.len()] && all[b] == top[b - lp.len()]);
            } else {
                assert(ap[a] == tp[a - lp.len()] && all[a] == top[a - lp.len()]);
                assert(ap[b] == tp[b - lp.len()] && all[b] == top[b - lp.len()]);
            }
        }
    }
}

/// The sorted pile is the pile sorted by strength, cards of one strength in
/// the order they had.
pub proof fn lemma_arranged_is_stable(cards: Seq<Card>)
    ensures
        stable_by_strength(arranged(cards), cards),
{
    lemma_places_below(cards, 14);
    lemma_arranged_keeps_cards(cards);
    let after = arranged(cards);
    let from = places_below(cards, 14);
    assert forall|a: int, b: int| 0 <= a < from.len() && 0 <= b < from.len() && a
        != b implies from[a] != from[b] by {
        if a < b {
            assert(in_order(after, from, by_strength(), a, b));
        } else {
            assert(in_order(after, from, by_strength(), b, a));
        }
    }
    assert(moved(after, cards, from));
    assert(stably_sorted(after, from, by_strength()));
}

/// Sorting a pile by comparing cards by strength gives the sorted pile.
pub proof fn lemma_sort_by_card_ord(after: Seq<Card>, before: Seq<Card>)
    requires
        sorted_from(after, before, card_ord),
    ensures
        after == arranged(before),
{
    lemma_sorted_by_card_ord(after, before);
    lemma_arranged_is_stable(before);
    lemma_stable_by_strength_is_one(after, arranged(before), before);
}

/// Comparing cards by strength compares them by their strength.
pub proof fn lemma_card_ord_keyed()
    ensures
        keyed(card_ord, by_strength()),
{
}

/// A pile sorted by comparing cards by strength is sorted by strength, cards
/// of one strength in the order they had.
pub proof fn lemma_sorted_by_card_ord(after: Seq<Card>, before: Seq<Card>)
    requires
        sorted_from(after, before, card_ord),
    ensures
        stable_by_strength(after, before),
{
    lemma_card_ord_keyed();
    let from = choose|from: Seq<int>|
        {
            &&& moved(after, before, from)
            &&& forall|key: spec_fn(Card) -> int|
                keyed(card_ord, key) ==> stably_sorted(after, from, key)
        };
    assert(stably_sorted(after, from, by_strength()));
}

/// The weakest card's strength is that of a card of the group, and no card of
/// the group is weaker.
pub proof fn lemma_lowest_key(cards: Seq<Card>)
    requires
        cards.len() > 0,
    ensures
        exists|i: int| 0 <= i < cards.len() && card_key(cards[i]) == lowest_key(cards),
        forall|i: int| 0 <= i < cards.len() ==> lowest_key(cards) <= card_key(cards[i]),
    decreases cards.len(),
{
    let rest = cards.drop_last();
    if rest.len() == 0 {
        assert(card_key(cards[0]) == lowest_key(cards));
    } else {
        lemma_lowest_key(rest);
        let w = choose|i: int| 0 <= i < rest.len() && card_key(rest[i]) == lowest_key(rest);
        assert(rest[w] == cards[w]);
        if card_key(cards.last()) < lowest_key(rest) {
            assert(card_key(cards[cards.len() - 1]) == lowest_key(cards));
        } else {
            assert(card_key(cards[w]) == lowest_key(cards));
        }
        assert forall|i: int| 0 <= i < cards.len() implies lowest_key(cards) <= card_key(
            cards[i],
        ) by {
            if i < rest.len() {
                assert(rest[i] == cards[i]);
            }
        }
    }
}

/// The weakest card of a group: the first one that no other is below.
fn lowest(cards: &[Card]) -> (c: Card)
    requires
        cards@.len() > 0,
    ensures
        card_key(c) == lowest_key(cards@),
{
    let mut best: Card = cards[0];
    let mut i: usize = 1;
    proof {
        let one = cards@.take(1);
        assert(one.drop_last() =~= Seq::<Card>::empty());
        assert(lowest_key(one.drop_last()) == 14);
        assert(one.last() == cards@[0]);
    }
    while i < cards.len()
        invariant
            1 <= i <= cards.len(),
            card_key(best) == lowest_key(cards@.take(i as int)),
        decreases cards.len() - i,
    {
        assert(cards@.take(i + 1).drop_last() =~= cards@.take(i as int));
        if strength(&cards[i]) < strength(&best) {
            best = cards[i];
        }
        i += 1;
    }
    assert(cards@.take(cards@.len() as int) =~= cards@);
    best
}

/// Compares two groups of cards by their weakest cards.
pub fn deck_ord(lhs: &[Card], rhs: &[Card]) -> (o: Ordering)
    ensures
        o == group_order(lhs@, rhs@),
{
    if lhs.len() == 0 || rhs.len() == 0 {
        return Ordering::Equal;
    }
    let l = lowest(lhs);
    let r = lowest(rhs);
    card_ord(&l, &r)
}

/// Whether `play` beats `top` in the order in force.
pub fn beats(play: &[Card], top: &[Card], reversed: bool) -> (r: bool)
    ensures
        r == beats_top(play@, top@, reversed),
{
    match deck_ord(play, top) {
        Ordering::Less => reversed,
        Ordering::Equal => false,
        Ordering::Greater => !reversed,
    }
}

} // verus!
