//! No operation but the dealing makes or loses a card: the hands, the two
//! piles and the river hold the same cards before and after.

use crate::card::Card;
use crate::deck::{
    first_at, holds_all, lemma_arranged_keeps_cards, lemma_first_at_unique, without, without_all,
};
use crate::events::distribute::pool_of;
use crate::game::{spilled, FieldKeyView, GameView};
use vstd::multiset::Multiset;
use vstd::prelude::*;

verus! {

impl GameView {
    /// The cards of the match: those of the hands, of the discard pile, of
    /// the excluded pile and of the river.
    pub open spec fn all_cards(self) -> Multiset<Card> {
        pool_of(self.hands).add(self.trushes.to_multiset()).add(self.excluded.to_multiset()).add(
            spilled(self.river).to_multiset(),
        )
    }
}

/// Two sums of cards that are equal hold each card equally often.
proof fn lemma_counts(a: Multiset<Card>, x: Multiset<Card>, b: Multiset<Card>, y: Multiset<Card>)
    requires
        a.add(x) == b.add(y),
    ensures
        forall|v: Card|
            #![trigger a.count(v)]
            #![trigger b.count(v)]
            a.count(v) + x.count(v) == b.count(v) + y.count(v),
{
    broadcast use vstd::multiset::group_multiset_axioms;

    assert forall|v: Card|
        #![trigger a.count(v)]
        #![trigger b.count(v)]
        a.count(v) + x.count(v) == b.count(v) + y.count(v) by {
        let l = a.add(x);
        let r = b.add(y);
        assert(l.count(v) == a.count(v) + x.count(v));
        assert(r.count(v) == b.count(v) + y.count(v));
    }
}

/// A pile holds a card more than the pile without the first such card.
pub proof fn lemma_without_card(cards: Seq<Card>, c: Card)
    requires
        cards.contains(c),
    ensures
        cards.to_multiset() == without(cards, c).to_multiset().insert(c),
{
    broadcast use vstd::multiset::group_multiset_axioms;

    let i = choose|i: int| 0 <= i < cards.len() && cards[i] == c;
    let j = choose|j: int| first_at(cards, c, j);
    lemma_first_exists(cards, c, i);
    lemma_first_at_unique(cards, c, j);
    vstd::seq_lib::to_multiset_remove(cards, j);
    vstd::seq_lib::to_multiset_contains(cards, c);
    assert(cards.to_multiset() =~= cards.remove(j).to_multiset().insert(c));
}

/// A card that a pile holds has a first place in it.
pub proof fn lemma_first_exists(cards: Seq<Card>, c: Card, i: int)
    requires
        0 <= i < cards.len(),
        cards[i] == c,
    ensures
        exists|j: int| first_at(cards, c, j),
    decreases i,
{
    if exists|k: int| 0 <= k < i && cards[k] == c {
        let k = choose|k: int| 0 <= k < i && cards[k] == c;
        lemma_first_exists(cards, c, k);
    } else {
        assert(first_at(cards, c, i));
    }
}

/// A pile holds its first card and the cards after it.
proof fn lemma_first_and_rest(cards: Seq<Card>)
    requires
        cards.len() > 0,
    ensures
        cards.to_multiset() == cards.drop_first().to_multiset().insert(cards[0]),
{
    broadcast use vstd::multiset::group_multiset_axioms;

    let one = seq![cards[0]];
    assert(one + cards.drop_first() =~= cards);
    vstd::seq_lib::lemma_multiset_commutative(one, cards.drop_first());
    vstd::seq_lib::to_multiset_build(Seq::<Card>::empty(), cards[0]);
    assert(Seq::<Card>::empty().push(cards[0]) =~= one);
    vstd::seq_lib::to_multiset_len(Seq::<Card>::empty());
    assert(Seq::<Card>::empty().to_multiset() =~= Multiset::<Card>::empty());
    assert(cards.to_multiset() =~= cards.drop_first().to_multiset().insert(cards[0]));
}

/// A pile holds the cards that were taken from it and those that stay.
pub proof fn lemma_without_all(cards: Seq<Card>, removes: Seq<Card>)
    requires
        holds_all(cards, removes),
    ensures
        cards.to_multiset() == without_all(cards, removes).to_multiset().add(
            removes.to_multiset(),
        ),
    decreases removes.len(),
{
    broadcast use vstd::multiset::group_multiset_axioms;

    if removes.len() == 0 {
        vstd::seq_lib::to_multiset_len(removes);
        assert(removes.to_multiset() =~= Multiset::<Card>::empty());
        assert(cards.to_multiset() =~= without_all(cards, removes).to_multiset().add(
            removes.to_multiset(),
        ));
    } else {
        let c = removes[0];
        lemma_without_card(cards, c);
        lemma_without_all(without(cards, c), removes.drop_first());
        lemma_first_and_rest(removes);
        assert(cards.to_multiset() =~= without_all(cards, removes).to_multiset().add(
            removes.to_multiset(),
        ));
    }
}

/// Other cards in one hand change the cards of all the hands by as much.
pub proof fn lemma_pool_update(hands: Seq<Seq<Card>>, i: int, cards: Seq<Card>)
    requires
        0 <= i < hands.len(),
    ensures
        pool_of(hands.update(i, cards)).add(hands[i].to_multiset()) == pool_of(hands).add(
            cards.to_multiset(),
        ),
    decreases hands.len(),
{
    broadcast use vstd::multiset::group_multiset_axioms;

    let now = hands.update(i, cards);
    if i == hands.len() - 1 {
        assert(now.drop_last() =~= hands.drop_last());
        assert(pool_of(now).add(hands[i].to_multiset()) =~= pool_of(hands).add(
            cards.to_multiset(),
        ));
    } else {
        assert(now.drop_last() =~= hands.drop_last().update(i, cards));
        assert(hands.drop_last()[i] == hands[i]);
        assert(now.last() == hands.last());
        lemma_pool_update(hands.drop_last(), i, cards);
        lemma_counts(
            pool_of(now.drop_last()),
            hands[i].to_multiset(),
            pool_of(hands.drop_last()),
            cards.to_multiset(),
        );
        assert(pool_of(now).add(hands[i].to_multiset()) =~= pool_of(hands).add(
            cards.to_multiset(),
        ));
    }
}

/// A play more on the river is its cards more among the cards of the river.
pub proof fn lemma_spilled_push(river: Seq<Seq<Card>>, play: Seq<Card>)
    ensures
        spilled(river.push(play)).to_multiset() == spilled(river).to_multiset().add(
            play.to_multiset(),
        ),
{
    assert(river.push(play).drop_last() =~= river);
    vstd::seq_lib::lemma_multiset_commutative(spilled(river), play);
}

/// An empty river holds no cards.
pub proof fn lemma_spilled_empty()
    ensures
        spilled(Seq::<Seq<Card>>::empty()).to_multiset() == Multiset::<Card>::empty(),
{
    vstd::seq_lib::to_multiset_len(Seq::<Card>::empty());
    assert(Seq::<Card>::empty().to_multiset() =~= Multiset::<Card>::empty());
}

/// Other cards in one pile change the cards of the match by as much.
pub proof fn lemma_with_field(g: GameView, key: FieldKeyView, cards: Seq<Card>)
    requires
        g.wf(),
        g.field(key) is Ok,
    ensures
        g.with_field(key, cards).all_cards().add(g.field(key)->Ok_0.to_multiset())
            == g.all_cards().add(cards.to_multiset()),
        g.with_field(key, cards).wf(),
{
    broadcast use vstd::multiset::group_multiset_axioms;

    match key {
        FieldKeyView::Hands(id) => {
            let i = g.seat_of(id)->0;
            lemma_seat_in_range(g, id);
            lemma_pool_update(g.hands, i, cards);
            lemma_counts(
                pool_of(g.hands.update(i, cards)),
                g.hands[i].to_multiset(),
                pool_of(g.hands),
                cards.to_multiset(),
            );
        },
        _ => {},
    }
    assert(g.with_field(key, cards).all_cards().add(g.field(key)->Ok_0.to_multiset())
        =~= g.all_cards().add(cards.to_multiset()));
}

/// The seat of a player is a seat of the table.
pub proof fn lemma_seat_in_range(g: GameView, id: Seq<char>)
    requires
        g.seat_of(id) is Some,
    ensures
        0 <= g.seat_of(id)->0 < g.players.len(),
        g.players[g.seat_of(id)->0] == id,
{
    let i = choose|i: int| 0 <= i < g.players.len() && g.players[i] == id;
    lemma_first_seat(g.players, id, i);
}

/// A player who sits at the table has a first seat.
proof fn lemma_first_seat(players: Seq<Seq<char>>, id: Seq<char>, i: int)
    requires
        0 <= i < players.len(),
        players[i] == id,
    ensures
        exists|j: int| crate::game::seat_at(players, id, j),
    decreases i,
{
    if exists|k: int| 0 <= k < i && players[k] == id {
        let k = choose|k: int| 0 <= k < i && players[k] == id;
        lemma_first_seat(players, id, k);
    } else {
        assert(crate::game::seat_at(players, id, i));
    }
}

/// Moving cards from pile to pile keeps the cards of the match.
pub proof fn lemma_transfer_keeps_cards(
    g: GameView,
    from: FieldKeyView,
    to: FieldKeyView,
    cards: Seq<Card>,
)
    requires
        g.wf(),
        g.transfer(from, to, cards) is Ok,
    ensures
        g.transfer(from, to, cards)->Ok_0.all_cards() == g.all_cards(),
        g.transfer(from, to, cards)->Ok_0.wf(),
{
    broadcast use vstd::multiset::group_multiset_axioms;

    let source = g.field(from)->Ok_0;
    let rest = without_all(source, cards);
    let taken = g.with_field(from, rest);
    lemma_with_field(g, from, rest);
    lemma_without_all(source, cards);
    let target = taken.field(to)->Ok_0;
    lemma_with_field(taken, to, target + cards);
    vstd::seq_lib::lemma_multiset_commutative(target, cards);
    lemma_counts(taken.all_cards(), source.to_multiset(), g.all_cards(), rest.to_multiset());
    lemma_counts(
        taken.with_field(to, target + cards).all_cards(),
        target.to_multiset(),
        taken.all_cards(),
        (target + cards).to_multiset(),
    );
    assert(g.transfer(from, to, cards)->Ok_0.all_cards() =~= g.all_cards());
}

/// Sorting a pile keeps the cards of the match.
pub proof fn lemma_arrange_keeps_cards(g: GameView, key: FieldKeyView)
    requires
        g.wf(),
    ensures
        g.arrange_field(key).all_cards() == g.all_cards(),
        g.arrange_field(key).wf(),
{
    broadcast use vstd::multiset::group_multiset_axioms;

    if g.field(key) is Ok {
        let cards = g.field(key)->Ok_0;
        lemma_arranged_keeps_cards(cards);
        lemma_with_field(g, key, crate::deck::arranged(cards));
        lemma_counts(
            g.arrange_field(key).all_cards(),
            cards.to_multiset(),
            g.all_cards(),
            crate::deck::arranged(cards).to_multiset(),
        );
        assert(g.arrange_field(key).all_cards() =~= g.all_cards());
    }
}

/// Closing the chain keeps the cards of the match.
pub proof fn lemma_flush_keeps_cards(g: GameView, to: FieldKeyView)
    requires
        g.wf(),
        g.flush_river(to) is Ok,
    ensures
        g.flush_river(to)->Ok_0.all_cards() == g.all_cards(),
        g.flush_river(to)->Ok_0.wf(),
{
    broadcast use vstd::multiset::group_multiset_axioms;

    let target = g.field(to)->Ok_0;
    lemma_with_field(g, to, target + g.river_cards());
    vstd::seq_lib::lemma_multiset_commutative(target, g.river_cards());
    lemma_spilled_empty();
    let filled = g.with_field(to, target + g.river_cards());
    lemma_counts(
        filled.all_cards(),
        target.to_multiset(),
        g.all_cards(),
        (target + g.river_cards()).to_multiset(),
    );
    let closed = g.flush_river(to)->Ok_0;
    assert(closed.hands == filled.hands);
    assert(closed.trushes == filled.trushes);
    assert(closed.excluded == filled.excluded);
    assert(closed.river == Seq::<Seq<Card>>::empty());
    assert(filled.river == g.river);
    assert(closed.all_cards() =~= g.all_cards());
}

/// The end of a turn keeps the cards of the match.
pub proof fn lemma_end_turn_keeps_cards(g: GameView)
    requires
        g.wf(),
        g.end_turn() is Ok,
    ensures
        g.end_turn()->Ok_0.all_cards() == g.all_cards(),
        g.end_turn()->Ok_0.wf(),
{
    let seat = g.seat_of(g.current->0)->0;
    let next = g.players[g.relative_seat(seat, g.turn_steps())];
    let moved = GameView { current: Some(next), ..g };
    if g.last_served_player_id == Some(next) {
        lemma_flush_keeps_cards(moved, g.flush_target());
    }
}

/// The rule of a rank keeps the cards of the match.
pub proof fn lemma_resolve_keeps_cards(g: GameView, player: Seq<char>, play: Seq<Card>)
    requires
        g.wf(),
        g.resolve(player, play) is Ok,
    ensures
        g.resolve(player, play)->Ok_0.all_cards() == g.all_cards(),
        g.resolve(player, play)->Ok_0.wf(),
{
}

/// Completing a play keeps the cards of the match.
pub proof fn lemma_settle_keeps_cards(g: GameView, player: Seq<char>, play: Seq<Card>)
    requires
        g.wf(),
        g.settle(player, play) is Ok,
    ensures
        g.settle(player, play)->Ok_0.all_cards() == g.all_cards(),
        g.settle(player, play)->Ok_0.wf(),
{
    lemma_resolve_keeps_cards(g, player, play);
    let r = g.resolve(player, play)->Ok_0;
    lemma_end_turn_keeps_cards(GameView { last_served_player_id: Some(player), ..r });
}

/// A play keeps the cards of the match: what leaves the hand lies on the
/// river or, after the chain has closed, on a pile.
pub proof fn lemma_serve_keeps_cards(g: GameView, player: Seq<char>)
    requires
        g.wf(),
        g.serve(player) is Ok,
    ensures
        g.serve(player)->Ok_0.all_cards() == g.all_cards(),
        g.serve(player)->Ok_0.wf(),
{
    broadcast use vstd::multiset::group_multiset_axioms;

    let seat = g.seat_of(player)->0;
    lemma_seat_in_range(g, player);
    let play = g.selects[seat];
    let played = g.played(seat, play);
    lemma_without_all(g.hands[seat], play);
    lemma_pool_update(g.hands, seat, without_all(g.hands[seat], play));
    lemma_counts(
        pool_of(played.hands),
        g.hands[seat].to_multiset(),
        pool_of(g.hands),
        without_all(g.hands[seat], play).to_multiset(),
    );
    lemma_spilled_push(g.river, play);
    assert(played.all_cards() =~= g.all_cards());
    if !played.contestable(player) {
        lemma_settle_keeps_cards(played, player, play);
    }
}

/// A pass keeps the cards of the match.
pub proof fn lemma_pass_keeps_cards(g: GameView, player: Seq<char>)
    requires
        g.wf(),
        g.pass(player) is Ok,
    ensures
        g.pass(player)->Ok_0.all_cards() == g.all_cards(),
        g.pass(player)->Ok_0.wf(),
{
    lemma_end_turn_keeps_cards(g);
}

/// Picking a card keeps the cards of the match.
pub proof fn lemma_select_keeps_cards(g: GameView, player: Seq<char>, card: Card)
    requires
        g.wf(),
        g.select(player, card) is Ok,
    ensures
        g.select(player, card)->Ok_0.all_cards() == g.all_cards(),
        g.select(player, card)->Ok_0.wf(),
{
    lemma_seat_in_range(g, player);
}

/// A contest that takes effect keeps the cards of the match.
pub proof fn lemma_interrupt_keeps_cards(g: GameView, s: int, ace: Card)
    requires
        g.wf(),
        0 <= s < g.hands.len(),
        g.hands[s].contains(ace),
    ensures
        g.interrupt(s, ace).all_cards() == g.all_cards(),
        g.interrupt(s, ace).wf(),
{
    broadcast use vstd::multiset::group_multiset_axioms;

    lemma_without_card(g.hands[s], ace);
    lemma_pool_update(g.hands, s, without(g.hands[s], ace));
    lemma_counts(
        pool_of(g.hands.update(s, without(g.hands[s], ace))),
        g.hands[s].to_multiset(),
        pool_of(g.hands),
        without(g.hands[s], ace).to_multiset(),
    );
    vstd::seq_lib::lemma_multiset_commutative(g.trushes, g.river_cards());
    let river = seq![seq![ace]];
    assert(river.drop_last() =~= Seq::<Seq<Card>>::empty());
    assert(spilled(Seq::<Seq<Card>>::empty()) =~= Seq::<Card>::empty());
    assert(river.last() == seq![ace]);
    assert(spilled(river) =~= seq![ace]);
    vstd::seq_lib::to_multiset_build(Seq::<Card>::empty(), ace);
    assert(Seq::<Card>::empty().push(ace) =~= seq![ace]);
    lemma_spilled_empty();
    assert(g.interrupt(s, ace).all_cards() =~= g.all_cards());
}

/// The seat of a player who contests is a seat of the table.
proof fn lemma_contester(g: GameView, i: int)
    requires
        g.wf(),
        g.prompt.len() > 0,
        g.contester_from(i) is Some,
    ensures
        0 <= g.contester_from(i)->0 < g.hands.len(),
        g.contests_at(g.contester_from(i)->0),
    decreases g.prompt[0].player_ids.len() - i,
{
    if g.contests(i) is Some {
        lemma_seat_in_range(g, g.prompt[0].player_ids[i]);
    } else {
        lemma_contester(g, i + 1);
    }
}

/// An answer keeps the cards of the match, whatever it leads to.
pub proof fn lemma_answer_keeps_cards(
    g: GameView,
    player: Seq<char>,
    token: Seq<char>,
    chance: bool,
)
    requires
        g.wf(),
        g.answer(player, token, chance) is Ok,
    ensures
        g.answer(player, token, chance)->Ok_0.all_cards() == g.all_cards(),
        g.answer(player, token, chance)->Ok_0.wf(),
{
    let seat = g.answer_allowed(player, token)->Ok_0;
    lemma_seat_in_range(g, player);
    let noted = GameView { answers: g.answers.update(seat, Some(token)), ..g };
    if noted.all_answered() {
        let d = noted.dequeued();
        assert(d.all_cards() == g.all_cards());
        assert(d.wf());
        match noted.prompt[0].kind {
            crate::game::PromptKind::Select4 => {
                lemma_take_keeps_cards(
                    d,
                    FieldKeyView::Trushes,
                    FieldKeyView::Hands(player),
                    d.selects[seat],
                );
            },
            crate::game::PromptKind::Select13 => {
                lemma_take_keeps_cards(
                    d,
                    FieldKeyView::Excluded,
                    FieldKeyView::Hands(player),
                    d.selects[seat],
                );
            },
            crate::game::PromptKind::Select7 => {
                let passer = d.relative_player(player, -1)->Ok_0;
                lemma_take_keeps_cards(
                    d,
                    FieldKeyView::Hands(player),
                    FieldKeyView::Hands(passer),
                    d.selects[seat],
                );
            },
            crate::game::PromptKind::UseOneChance => {
                if chance && noted.contester_from(0) is Some {
                    lemma_contester(noted, 0);
                    let s = noted.contester_from(0)->0;
                    lemma_interrupt_keeps_cards(d, s, noted.selects[s][0]);
                } else {
                    let server = d.current->0;
                    lemma_settle_keeps_cards(d, server, d.river.last());
                }
            },
        }
    }
}

/// Taking cards from a pile into a pile that is then sorted keeps the cards
/// of the match.
pub proof fn lemma_take_keeps_cards(
    g: GameView,
    from: FieldKeyView,
    to: FieldKeyView,
    cards: Seq<Card>,
)
    requires
        g.wf(),
        g.take_cards(from, to, cards) is Ok,
    ensures
        g.take_cards(from, to, cards)->Ok_0.all_cards() == g.all_cards(),
        g.take_cards(from, to, cards)->Ok_0.wf(),
{
    lemma_transfer_keeps_cards(g, from, to, cards);
    lemma_arrange_keeps_cards(g.transfer(from, to, cards)->Ok_0, to);
}

} // verus!
