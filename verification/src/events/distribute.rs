//! Dealing the cards.

use crate::card::Card;
use crate::deck::{arranged, dealt, full_deck, lemma_arranged_keeps_cards, Deck};
use crate::error::GameError;
use crate::game::{Game, GameView};
use vstd::multiset::Multiset;
use vstd::prelude::*;

verus! {

/// The cards of all the hands together.
pub open spec fn pool_of(hands: Seq<Seq<Card>>) -> Multiset<Card>
    decreases hands.len(),
{
    if hands.len() == 0 {
        Multiset::empty()
    } else {
        pool_of(hands.drop_last()).add(hands.last().to_multiset())
    }
}

impl GameView {
    /// The match after `cards` were dealt one by one round the table and each
    /// hand was sorted: the first player is on turn, and nothing else
    /// changes.
    pub open spec fn dealt_from(self, cards: Seq<Card>) -> GameView {
        GameView {
            hands: Seq::new(
                self.players.len(),
                |i: int| arranged(dealt(cards, self.players.len() as int, i)),
            ),
            current: Some(self.players[0]),
            ..self
        }
    }

    /// Whether `after` is the match after the full deck with two jokers was
    /// dealt in some order.
    pub open spec fn distributed(self, after: GameView) -> bool {
        exists|cards: Seq<Card>|
            cards.to_multiset() == full_deck(2).to_multiset() && after == self.dealt_from(cards)
    }
}

/// The operation of dealing the cards.
#[derive(Debug)]
pub struct Distribute;

impl Distribute {
    /// Deals the given pile one card at a time round the table and sorts each
    /// hand, or changes nothing where nobody sits at the table.
    pub fn deal(&self, game: &mut Game, deck: &Deck) -> (r: Result<(), GameError>)
        requires
            old(game).wf(),
        ensures
            final(game).wf(),
            old(game)@.players.len() == 0 ==> r == Err::<(), GameError>(GameError::PlayersEmpty)
                && final(game)@ == old(game)@,
            old(game)@.players.len() > 0 ==> r is Ok && final(game)@ == old(game)@.dealt_from(
                deck@,
            ),
    {
        let n: usize = game.players.len();
        if n == 0 {
            return Err(GameError::PlayersEmpty);
        }
        let decks: Vec<Deck> = match deck.split(n) {
            Ok(decks) => decks,
            Err(e) => {
                return Err(e);
            },
        };
        let mut hands: Vec<Deck> = Vec::new();
        let mut i: usize = 0;
        while i < n
            invariant
                i <= n,
                decks@.len() == n,
                forall|k: int| 0 <= k < n ==> (#[trigger] decks@[k])@ == dealt(deck@, n as int, k),
                hands@.len() == i,
                forall|k: int|
                    0 <= k < i ==> (#[trigger] hands@[k])@ == arranged(dealt(deck@, n as int, k)),
            decreases n - i,
        {
            let mut hand: Deck = decks[i].clone();
            hand.arrange();
            hands.push(hand);
            i += 1;
        }
        game.hands = hands;
        game.current = Some(game.players[0].clone());
        proof {
            let g = old(game)@.dealt_from(deck@);
            assert(game@.players.len() == n);
            assert(game@.hands =~= g.hands);
            assert(game@.current == g.current);
        }
        Ok(())
    }

    /// Deals the full deck with two jokers in an order that chance decides,
    /// or changes nothing where nobody sits at the table.
    pub fn on(&self, _player_id: String, game: &mut Game) -> (r: Result<(), GameError>)
        requires
            old(game).wf(),
        ensures
            final(game).wf(),
            old(game)@.players.len() == 0 ==> r == Err::<(), GameError>(GameError::PlayersEmpty)
                && final(game)@ == old(game)@,
            old(game)@.players.len() > 0 ==> r is Ok && old(game)@.distributed(final(game)@),
    {
        if game.players.len() == 0 {
            return Err(GameError::PlayersEmpty);
        }
        let mut deck: Deck = Deck::all(2);
        deck.shuffle();
        self.deal(game, &deck)
    }
}

/// A card more in one hand is a card more in all the hands together.
proof fn lemma_pool_push(hands: Seq<Seq<Card>>, r: int, c: Card)
    requires
        0 <= r < hands.len(),
    ensures
        pool_of(hands.update(r, hands[r].push(c))) == pool_of(hands).insert(c),
    decreases hands.len(),
{
    broadcast use vstd::multiset::group_multiset_axioms;

    let now = hands.update(r, hands[r].push(c));
    if r == hands.len() - 1 {
        assert(now.drop_last() =~= hands.drop_last());
        vstd::seq_lib::to_multiset_build(hands[r], c);
        assert(pool_of(now) =~= pool_of(hands).insert(c));
    } else {
        assert(now.drop_last() =~= hands.drop_last().update(r, hands[r].push(c)));
        assert(hands.drop_last()[r] == hands[r]);
        lemma_pool_push(hands.drop_last(), r, c);
        assert(now.last() == hands.last());
        assert(pool_of(now) =~= pool_of(hands).insert(c));
    }
}

/// Hands of no cards hold no cards together.
proof fn lemma_pool_empty(n: nat)
    ensures
        pool_of(Seq::new(n, |i: int| Seq::<Card>::empty())) == Multiset::<Card>::empty(),
    decreases n,
{
    broadcast use vstd::multiset::group_multiset_axioms;

    let hands = Seq::new(n, |i: int| Seq::<Card>::empty());
    if n > 0 {
        assert(hands.drop_last() =~= Seq::new((n - 1) as nat, |i: int| Seq::<Card>::empty()));
        lemma_pool_empty((n - 1) as nat);
        vstd::seq_lib::to_multiset_len(Seq::<Card>::empty());
        assert(hands.last().to_multiset() =~= Multiset::<Card>::empty());
        assert(pool_of(hands) =~= Multiset::<Card>::empty());
    }
}

/// The hands dealt from a pile hold the cards of the pile together.
pub proof fn lemma_dealt_pool(cards: Seq<Card>, n: int)
    requires
        n > 0,
    ensures
        pool_of(Seq::new(n as nat, |i: int| dealt(cards, n, i))) == cards.to_multiset(),
    decreases cards.len(),
{
    broadcast use vstd::multiset::group_multiset_axioms;

    let hands = Seq::new(n as nat, |i: int| dealt(cards, n, i));
    if cards.len() == 0 {
        assert(hands =~= Seq::new(n as nat, |i: int| Seq::<Card>::empty()));
        lemma_pool_empty(n as nat);
        vstd::seq_lib::to_multiset_len(cards);
        assert(cards.to_multiset() =~= Multiset::<Card>::empty());
    } else {
        let rest = cards.drop_last();
        let before = Seq::new(n as nat, |i: int| dealt(rest, n, i));
        lemma_dealt_pool(rest, n);
        let r = (cards.len() - 1) % n;
        vstd::arithmetic::div_mod::lemma_mod_bound(cards.len() - 1, n);
        assert(hands =~= before.update(r, before[r].push(cards.last())));
        lemma_pool_push(before, r, cards.last());
        vstd::seq_lib::to_multiset_build(rest, cards.last());
        assert(rest.push(cards.last()) =~= cards);
    }
}

/// Sorting the hands keeps the cards that they hold together.
pub proof fn lemma_arranged_pool(hands: Seq<Seq<Card>>)
    ensures
        pool_of(Seq::new(hands.len(), |i: int| arranged(hands[i]))) == pool_of(hands),
    decreases hands.len(),
{
    let sorted = Seq::new(hands.len(), |i: int| arranged(hands[i]));
    if hands.len() > 0 {
        let rest = hands.drop_last();
        assert(sorted.drop_last() =~= Seq::new(rest.len(), |i: int| arranged(rest[i])));
        lemma_arranged_pool(rest);
        lemma_arranged_keeps_cards(hands.last());
    }
}

/// How many cards the player at seat `k` of `n` gets: the `n`-th part of the
/// pile, and one more at the first seats where it does not divide.
pub proof fn lemma_dealt_len(cards: Seq<Card>, n: int, k: int)
    requires
        0 <= k < n,
    ensures
        dealt(cards, n, k).len() == (cards.len() as int) / n + if k < (cards.len() as int) % n {
            1int
        } else {
            0int
        },
    decreases cards.len(),
{
    if cards.len() == 0 {
        vstd::arithmetic::div_mod::lemma_small_mod(0, n as nat);
        vstd::arithmetic::div_mod::lemma_div_basics(n);
    } else {
        let len: int = cards.len() - 1;
        lemma_dealt_len(cards.drop_last(), n, k);
        let q = len / n;
        let r = len % n;
        vstd::arithmetic::div_mod::lemma_fundamental_div_mod(len, n);
        vstd::arithmetic::div_mod::lemma_mod_bound(len, n);
        if r + 1 < n {
            assert(len + 1 == q * n + (r + 1)) by (nonlinear_arith)
                requires
                    len == n * q + r,
            ;
            vstd::arithmetic::div_mod::lemma_fundamental_div_mod_converse(len + 1, n, q, r + 1);
        } else {
            assert(len + 1 == (q + 1) * n + 0) by (nonlinear_arith)
                requires
                    len == n * q + r,
                    r + 1 == n,
            ;
            vstd::arithmetic::div_mod::lemma_fundamental_div_mod_converse(len + 1, n, q + 1, 0);
        }
    }
}

/// After the cards are dealt the hands hold the full deck together, and no
/// hand has two cards more than another.
pub proof fn lemma_dealing(before: GameView, after: GameView)
    requires
        before.players.len() >= 1,
        before.distributed(after),
    ensures
        pool_of(after.hands) == full_deck(2).to_multiset(),
        after.hands.len() == before.players.len(),
        forall|i: int, j: int|
            0 <= i < after.hands.len() && 0 <= j < after.hands.len() ==> after.hands[i].len()
                <= after.hands[j].len() + 1,
{
    let n = before.players.len() as int;
    let cards = choose|cards: Seq<Card>|
        cards.to_multiset() == full_deck(2).to_multiset() && after == before.dealt_from(cards);
    let raw = Seq::new(n as nat, |i: int| dealt(cards, n, i));
    lemma_dealt_pool(cards, n);
    lemma_arranged_pool(raw);
    assert(after.hands =~= Seq::new(raw.len(), |i: int| arranged(raw[i])));
    assert forall|i: int, j: int|
        0 <= i < after.hands.len() && 0 <= j < after.hands.len() implies after.hands[i].len()
        <= after.hands[j].len() + 1 by {
        lemma_dealt_len(cards, n, i);
        lemma_dealt_len(cards, n, j);
        lemma_arranged_keeps_cards(dealt(cards, n, i));
        lemma_arranged_keeps_cards(dealt(cards, n, j));
    }
}

} // verus!
