//! What holds of the rules whatever the cards: the lasting reversal, the suit
//! lock, and the closing of a chain.

use crate::card::{
    card_key, cardinal_of, lemma_same_number_rank, number_of, order_of, same_number, suits_match,
    suits_of, Card, Suit,
};
use crate::conservation::lemma_without_card;
use crate::deck::{beats_top, group_order, holds_all, lemma_lowest_key, lowest_key, without};
use crate::effect::EffectView;
use crate::error::GameError;
use crate::game::{
    active_in, lemma_active_in, lemma_active_prefix, lemma_seat_unique, seat_at, GameView,
};
use vstd::prelude::*;

verus! {

/// A group of one rank with a card that counts as a rank is as strong as that
/// rank: free jokers in it do not weaken it.
pub proof fn lemma_lowest_key_by_rank(cards: Seq<Card>)
    requires
        same_number(cards),
        exists|i: int| 0 <= i < cards.len() && cards[i].rank_of() is Some,
    ensures
        lowest_key(cards) == cardinal_of(number_of(cards)),
{
    let j = choose|j: int| 0 <= j < cards.len() && cards[j].rank_of() is Some;
    lemma_same_number_rank(cards, j);
    lemma_lowest_key(cards);
    let i = choose|i: int| 0 <= i < cards.len() && card_key(cards[i]) == lowest_key(cards);
    if cards[i].rank_of() is Some {
        lemma_same_number_rank(cards, i);
    } else {
        assert(lowest_key(cards) <= card_key(cards[j]));
    }
}

/// Two groups, each of one rank, stand to each other as their ranks do by
/// strength: which cards of them are held against each other is all one.
pub proof fn lemma_group_order_by_rank(lhs: Seq<Card>, rhs: Seq<Card>)
    requires
        same_number(lhs),
        same_number(rhs),
        exists|i: int| 0 <= i < lhs.len() && lhs[i].rank_of() is Some,
        exists|i: int| 0 <= i < rhs.len() && rhs[i].rank_of() is Some,
    ensures
        group_order(lhs, rhs) == order_of(
            cardinal_of(number_of(lhs)),
            cardinal_of(number_of(rhs)),
        ),
{
    lemma_lowest_key_by_rank(lhs);
    lemma_lowest_key_by_rank(rhs);
}

/// A pile holds the cards named, a card named twice at least twice, where it
/// holds each card at least as often as it is named, and only there.
pub proof fn lemma_holds_all_is_inclusion(cards: Seq<Card>, removes: Seq<Card>)
    ensures
        holds_all(cards, removes) <==> removes.to_multiset().subset_of(cards.to_multiset()),
    decreases removes.len(),
{
    broadcast use vstd::multiset::group_multiset_axioms;

    if removes.len() == 0 {
        vstd::seq_lib::to_multiset_len(removes);
        assert(removes.to_multiset() =~= vstd::multiset::Multiset::<Card>::empty());
    } else {
        let c = removes[0];
        let rest = removes.drop_first();
        let one = seq![c];
        assert(one + rest =~= removes);
        vstd::seq_lib::lemma_multiset_commutative(one, rest);
        vstd::seq_lib::to_multiset_build(Seq::<Card>::empty(), c);
        assert(Seq::<Card>::empty().push(c) =~= one);
        vstd::seq_lib::to_multiset_len(Seq::<Card>::empty());
        assert(Seq::<Card>::empty().to_multiset() =~= vstd::multiset::Multiset::<Card>::empty());
        assert(removes.to_multiset() =~= rest.to_multiset().insert(c));
        vstd::seq_lib::to_multiset_contains(cards, c);
        if cards.contains(c) {
            lemma_without_card(cards, c);
            lemma_holds_all_is_inclusion(without(cards, c), rest);
            let less = without(cards, c).to_multiset();
            if rest.to_multiset().subset_of(less) {
                assert forall|v: Card| removes.to_multiset().count(v) <= cards.to_multiset().count(
                    v,
                ) by {
                    assert(rest.to_multiset().count(v) <= less.count(v));
                }
            }
            if removes.to_multiset().subset_of(cards.to_multiset()) {
                assert forall|v: Card| rest.to_multiset().count(v) <= less.count(v) by {
                    assert(removes.to_multiset().count(v) <= cards.to_multiset().count(v));
                }
            }
        } else {
            assert(removes.to_multiset().count(c) > cards.to_multiset().count(c));
        }
    }
}

/// A play of four cards turns the lasting order of strength round, and a play
/// of another size leaves it; so two plays of four cards leave it as it was.
pub proof fn lemma_revolution_parity(e: EffectView, first: Seq<Card>, second: Seq<Card>)
    ensures
        first.len() == 4 ==> e.ruled(first).revoluted == !e.revoluted,
        first.len() != 4 ==> e.ruled(first).revoluted == e.revoluted,
        first.len() == 4 && second.len() == 4 ==> e.ruled(first).ruled(second).revoluted
            == e.revoluted,
        e.ruled(first).next_chain().revoluted == e.ruled(first).revoluted,
{
}

/// Two plays of four cards, one after the other, each of a rank of 1 to 13
/// and each by a player with a seat, are both accepted by the rules of their
/// ranks and leave the lasting order of strength as it was.
pub proof fn lemma_two_plays_of_four(
    g: GameView,
    first_player: Seq<char>,
    first: Seq<Card>,
    second_player: Seq<char>,
    second: Seq<Card>,
)
    requires
        g.seat_of(first_player) is Some,
        g.seat_of(second_player) is Some,
        first.len() == 4,
        second.len() == 4,
        1 <= number_of(first) <= 13,
        1 <= number_of(second) <= 13,
    ensures
        g.resolve(first_player, first) is Ok,
        g.resolve(first_player, first)->Ok_0.resolve(second_player, second) is Ok,
        g.resolve(first_player, first)->Ok_0.effect.revoluted == !g.effect.revoluted,
        g.resolve(first_player, first)->Ok_0.resolve(second_player, second)->Ok_0.effect.revoluted
            == g.effect.revoluted,
{
    let after = g.resolve(first_player, first)->Ok_0;
    assert(after.players == g.players);
    assert(after.seat_of(second_player) == g.seat_of(second_player));
}

/// However two plays of four cards are taken, where the rules of their ranks
/// accept both, the lasting order of strength is afterwards as it was.
pub proof fn lemma_two_plays_restore(
    g: GameView,
    first_player: Seq<char>,
    first: Seq<Card>,
    second_player: Seq<char>,
    second: Seq<Card>,
)
    requires
        first.len() == 4,
        second.len() == 4,
        g.resolve(first_player, first) is Ok,
        g.resolve(first_player, first)->Ok_0.resolve(second_player, second) is Ok,
    ensures
        g.resolve(first_player, first)->Ok_0.resolve(second_player, second)->Ok_0.effect.revoluted
            == g.effect.revoluted,
{
}

/// The same of a play that is completed in a match: four cards turn the
/// lasting order round, another size leaves it, also where the chain closes.
pub proof fn lemma_settle_revolution(g: GameView, player: Seq<char>, play: Seq<Card>)
    requires
        g.settle(player, play) is Ok,
    ensures
        g.settle(player, play)->Ok_0.effect.revoluted == if play.len() == 4 {
            !g.effect.revoluted
        } else {
            g.effect.revoluted
        },
{
}

/// A play of queens whose rule is in force asks for steps and locks the suits
/// that it shows.
pub proof fn lemma_queens_lock(e: EffectView, play: Seq<Card>)
    requires
        number_of(play) == 12,
        e.active(12),
    ensures
        e.ruled(play).is_step,
        e.ruled(play).suit_limits == suits_of(play),
{
}

/// While suits are locked, a play that is allowed but for its suits is
/// accepted where it shows every suit of the play on top of the river, and
/// refused for its suits where it lacks one.
pub proof fn lemma_suit_lock(g: GameView, play: Seq<Card>)
    requires
        g.river.len() > 0,
        g.effect.suit_limits != Set::<Suit>::empty(),
        same_number(play),
        beats_top(play, g.river.last(), g.reversed()),
        g.expected_size(play) == Some(play.len() as usize),
        play.len() <= usize::MAX,
        g.effect.is_step ==> cardinal_of(number_of(play)) - cardinal_of(
            number_of(g.river.last()),
        ) == 1,
    ensures
        suits_match(g.river.last(), play) ==> g.servable(play) == Ok::<(), GameError>(()),
        !suits_match(g.river.last(), play) ==> g.servable(play) == Err::<(), GameError>(
            GameError::SuitMismatch,
        ),
{
}

impl GameView {
    /// The match after the player on turn has passed, and the next, `k` times
    /// in all.
    pub open spec fn passes(self, k: nat) -> Result<GameView, GameError>
        decreases k,
    {
        if k == 0 {
            Ok(self)
        } else {
            match self.current {
                None => Err(GameError::NotYourTurn),
                Some(c) => match self.pass(c) {
                    Err(e) => Err(e),
                    Ok(g) => g.passes((k - 1) as nat),
                },
            }
        }
    }

    /// The match after the chain has closed with the turn back at the player
    /// who played last.
    pub open spec fn chain_closed(self) -> GameView {
        let moved = GameView { current: self.last_served_player_id, ..self };
        if self.top_rule() == Some(2u8) {
            GameView {
                excluded: self.excluded + self.river_cards(),
                river: Seq::empty(),
                effect: self.effect.next_chain(),
                ..moved
            }
        } else {
            GameView {
                trushes: self.trushes + self.river_cards(),
                river: Seq::empty(),
                effect: self.effect.next_chain(),
                ..moved
            }
        }
    }
}

/// Where no two players go by one name, a player is found at the player's
/// seat.
pub proof fn lemma_seat_of_player(g: GameView, seat: int)
    requires
        g.players.no_duplicates(),
        0 <= seat < g.players.len(),
    ensures
        g.seat_of(g.players[seat]) == Some(seat),
{
    assert(seat_at(g.players, g.players[seat], seat));
    lemma_seat_unique(g, g.players[seat], seat);
}

/// The `i`-th seat with cards has `i` seats with cards before it.
pub proof fn lemma_place_of_active(hands: Seq<Seq<Card>>, i: int)
    requires
        0 <= i < active_in(hands).len(),
    ensures
        0 <= active_in(hands)[i] < hands.len(),
        active_in(hands.take(active_in(hands)[i])).len() == i,
{
    lemma_active_in(hands);
    let a = active_in(hands);
    assert(0 <= a[i] < hands.len());
    lemma_active_prefix(hands, a[i]);
    let place = active_in(hands.take(a[i])).len() as int;
    assert(a[place] == a[i]);
    if place < i {
        assert(a[place] < a[i]);
    }
    if i < place {
        assert(a[i] < a[place]);
    }
}

/// One step on from a place at the table of `n` seats with cards.
proof fn lemma_next_place(ip: int, j: int, n: int)
    requires
        0 <= ip < n,
        1 <= j < n,
    ensures
        0 <= (ip + j) % n < n,
        (ip + j) % n != ip,
        ((ip + j) % n + 1) % n == (ip + j + 1) % n,
        (ip + n) % n == ip,
{
    vstd::arithmetic::div_mod::lemma_mod_bound(ip + j, n);
    vstd::arithmetic::div_mod::lemma_add_mod_noop(ip + j, 1, n);
    vstd::arithmetic::div_mod::lemma_mod_twice(ip + j, n);
    vstd::arithmetic::div_mod::lemma_small_mod(ip as nat, n as nat);
    vstd::arithmetic::div_mod::lemma_mod_add_multiples_vanish(ip, n);
    if ip + j < n {
        vstd::arithmetic::div_mod::lemma_small_mod((ip + j) as nat, n as nat);
    } else {
        vstd::arithmetic::div_mod::lemma_small_mod((ip + j - n) as nat, n as nat);
        vstd::arithmetic::div_mod::lemma_mod_add_multiples_vanish(ip + j - n, n);
    }
    if n == 1 {
    } else {
        vstd::arithmetic::div_mod::lemma_small_mod(1, n as nat);
    }
}

/// A chain closes when all others pass. Let no two players go by one name,
/// no question be open, a play lie on the river whose rank asks for no
/// other step than one, and the player who played last hold cards. When the
/// turn is `j` players further round the table and each player on turn
/// passes, the chain closes with the pass of the last player before the one
/// who played last: the turn is back at that player, the river is empty, its
/// cards lie on the discard pile, or on the excluded pile where the play on
/// top was of twos whose rule is in force, and of the rules only the lasting
/// reversal stays.
pub proof fn lemma_chain_closes(g: GameView, ip: int, j: int)
    requires
        g.wf(),
        g.players.no_duplicates(),
        g.prompt.len() == 0,
        g.river.len() > 0,
        g.turn_steps() == 1,
        0 <= ip < active_in(g.hands).len(),
        1 <= j < active_in(g.hands).len(),
        g.last_served_player_id == Some(g.players[active_in(g.hands)[ip]]),
        g.current == Some(
            g.players[active_in(g.hands)[(ip + j) % (active_in(g.hands).len() as int)]],
        ),
    ensures
        g.passes((active_in(g.hands).len() - j) as nat) == Ok::<GameView, GameError>(
            g.chain_closed(),
        ),
    decreases active_in(g.hands).len() - j,
{
    let a = active_in(g.hands);
    let n = a.len() as int;
    let i = (ip + j) % n;
    lemma_next_place(ip, j, n);
    lemma_active_in(g.hands);
    lemma_place_of_active(g.hands, i);
    lemma_place_of_active(g.hands, ip);
    let c = g.players[a[i]];
    lemma_seat_of_player(g, a[i]);
    lemma_seat_of_player(g, a[ip]);
    let next_place = (i + 1) % n;
    vstd::arithmetic::div_mod::lemma_mod_bound(i + 1, n);
    assert(g.relative_seat(a[i], 1) == a[next_place]);
    let next = g.players[a[next_place]];
    lemma_seat_of_player(g, a[next_place]);
    assert(!g.pending_for(c));
    let moved = GameView { current: Some(next), ..g };
    if j + 1 == n {
        assert(next_place == ip);
        assert(g.pass(c) == Ok::<GameView, GameError>(g.chain_closed()));
        assert(g.chain_closed().passes(0) == Ok::<GameView, GameError>(g.chain_closed()));
    } else {
        lemma_next_place(ip, j + 1, n);
        assert(next_place != ip);
        assert(a[next_place] != a[ip]) by {
            if next_place < ip {
                assert(a[next_place] < a[ip]);
            } else {
                assert(a[ip] < a[next_place]);
            }
        }
        assert(next != g.players[a[ip]]);
        assert(g.pass(c) == Ok::<GameView, GameError>(moved));
        assert(moved.turn_steps() == g.turn_steps());
        lemma_chain_closes(moved, ip, j + 1);
        assert(moved.chain_closed() == g.chain_closed());
    }
}

} // verus!
