//! The rules in force for the plays of one chain.

use crate::card::{number, number_of, suits, suits_of, Card, Suit, SuitSet};
use crate::deck::Deck;
use crate::error::GameError;
use crate::events::serve::toggled;
use crate::mock::cancel;
use crate::state::{CareerPokerState, StateView};
use std::collections::HashSet;
use vstd::prelude::*;

verus! {

broadcast use vstd::std_specs::hash::group_hash_axioms;

/// The rules that the plays of the current chain have put in force.
#[derive(Debug)]
pub struct Effect {
    /// The number of cards that the next play must have.
    pub river_size: Option<usize>,
    /// The suits that locked the chain.
    pub suit_limits: SuitSet,
    /// The ranks whose own rule is switched off for this chain.
    pub effect_limits: HashSet<u8>,
    /// The order of strength is reversed until the chain closes.
    pub turn_revoluted: bool,
    /// A play must be one step above the play before it.
    pub is_step: bool,
    /// The order of strength is reversed; this outlasts the chain.
    pub revoluted: bool,
}

/// What an `Effect` holds, as plain values.
pub struct EffectView {
    pub river_size: Option<usize>,
    pub suit_limits: Set<Suit>,
    pub effect_limits: Set<u8>,
    pub turn_revoluted: bool,
    pub is_step: bool,
    pub revoluted: bool,
}

impl View for Effect {
    type V = EffectView;

    open spec fn view(&self) -> EffectView {
        EffectView {
            river_size: self.river_size,
            suit_limits: self.suit_limits@,
            effect_limits: self.effect_limits@,
            turn_revoluted: self.turn_revoluted,
            is_step: self.is_step,
            revoluted: self.revoluted,
        }
    }
}

impl EffectView {
    /// The rules at the start of a match: nothing in force.
    pub open spec fn fresh() -> EffectView {
        EffectView {
            river_size: None,
            suit_limits: Set::empty(),
            effect_limits: Set::empty(),
            turn_revoluted: false,
            is_step: false,
            revoluted: false,
        }
    }

    /// The rules at the start of the next chain: only the lasting reversal
    /// stays.
    pub open spec fn next_chain(self) -> EffectView {
        EffectView { revoluted: self.revoluted, ..EffectView::fresh() }
    }

    /// Whether the rule of rank `n` is in force.
    pub open spec fn active(self, n: u8) -> bool {
        !self.effect_limits.contains(n)
    }
}

/// The ranks from `lo` up to, but without, `hi`.
pub open spec fn ranks_between(lo: int, hi: int) -> Set<u8> {
    Set::new(|n: u8| lo <= n < hi)
}

/// Adds the ranks from `lo` up to, but without, `hi` to the set.
pub fn insert_ranks(set: &mut HashSet<u8>, lo: u8, hi: u8)
    ensures
        final(set)@ == old(set)@.union(ranks_between(lo as int, hi as int)),
{
    if lo > hi {
        assert(old(set)@.union(ranks_between(lo as int, hi as int)) =~= old(set)@);
        return;
    }
    let mut n: u8 = lo;
    while n < hi
        invariant
            lo <= n <= hi,
            set@ == old(set)@.union(ranks_between(lo as int, n as int)),
        decreases hi - n,
    {
        set.insert(n);
        assert(set@ =~= old(set)@.union(ranks_between(lo as int, n + 1)));
        n += 1;
    }
    assert(old(set)@.union(ranks_between(lo as int, lo as int)) =~= old(set)@);
}

/// A set of ranks with the same ranks in it.
pub fn copy_ranks(set: &HashSet<u8>) -> (r: HashSet<u8>)
    ensures
        r@ == set@,
{
    let mut r: HashSet<u8> = HashSet::new();
    let mut n: u8 = 0;
    loop
        invariant_except_break
            forall|m: u8| r@.contains(m) <==> m < n && set@.contains(m),
        ensures
            forall|m: u8| r@.contains(m) <==> set@.contains(m),
        decreases 255 - n,
    {
        if set.contains(&n) {
            r.insert(n);
        }
        if n == 255 {
            break;
        }
        n += 1;
    }
    assert(r@ =~= set@);
    r
}

impl Effect {
    pub fn new() -> (e: Effect)
        ensures
            e@ == EffectView::fresh(),
    {
        Effect {
            river_size: None,
            suit_limits: SuitSet::new(),
            effect_limits: HashSet::new(),
            turn_revoluted: false,
            is_step: false,
            revoluted: false,
        }
    }

    /// The rules for the chain after the one that `effect` held for.
    pub fn new_turn(effect: Effect) -> (e: Effect)
        ensures
            e@ == effect@.next_chain(),
    {
        Effect {
            river_size: None,
            suit_limits: SuitSet::new(),
            effect_limits: HashSet::new(),
            turn_revoluted: false,
            is_step: false,
            revoluted: effect.revoluted,
        }
    }

}

impl Clone for Effect {
    fn clone(&self) -> (e: Effect)
        ensures
            e@ == self@,
    {
        Effect {
            river_size: self.river_size,
            suit_limits: self.suit_limits,
            effect_limits: copy_ranks(&self.effect_limits),
            turn_revoluted: self.turn_revoluted,
            is_step: self.is_step,
            revoluted: self.revoluted,
        }
    }
}

/// The size of plays after a nine: one card for three and three for one.
pub open spec fn turned_size(size: Option<usize>) -> Option<usize> {
    match size {
        Some(n) => if n == 1 {
            Some(3usize)
        } else if n == 3 {
            Some(1usize)
        } else {
            Some(n)
        },
        None => None,
    }
}

impl StateView {
    /// The match with other rules in force.
    pub open spec fn with_effect(self, effect: EffectView) -> StateView {
        StateView { effect: effect, ..self }
    }

    /// A play of four cards turns the lasting order of strength round.
    pub open spec fn effect_revolution(self, serves: Seq<Card>) -> StateView {
        if serves.len() == 4 {
            self.with_effect(EffectView { revoluted: !self.effect.revoluted, ..self.effect })
        } else {
            self
        }
    }

    /// A three switches off the rules of all ranks.
    pub open spec fn effect_3(self, player: Seq<char>) -> StateView {
        (if self.effect.active(3) {
            self.with_effect(
                EffectView {
                    effect_limits: self.effect.effect_limits.union(ranks_between(1, 14)),
                    ..self.effect
                },
            )
        } else {
            self
        }).next(player)
    }

    /// A four lets the player take cards from the discard pile, where the
    /// hand and that pile hold cards.
    pub open spec fn effect_4(self, player: Seq<char>) -> StateView {
        if self.effect.active(4) && self.pile(player).len() > 0 && self.pile("trushes"@).len()
            > 0 {
            StateView { prompts: self.prompts.insert(player, "trushes"@), ..self }
        } else {
            self.next(player)
        }
    }

    /// A five passes over as many players as the play has cards; the chain is
    /// to close where the turn comes back to the player.
    pub open spec fn effect_5(self, player: Seq<char>, serves: Seq<Card>) -> StateView {
        if self.effect.active(5) {
            let moved = StateView {
                current: self.relative_player(player, 1 + serves.len() as int),
                ..self
            };
            if moved.current == Some(player) {
                moved.will_flush()
            } else {
                moved
            }
        } else {
            self.next(player)
        }
    }

    /// A seven lets the player hand cards on, where the hand holds any.
    pub open spec fn effect_7(self, player: Seq<char>) -> StateView {
        if self.effect.active(7) && self.pile(player).len() > 0 {
            StateView { prompts: self.prompts.insert(player, player), ..self }
        } else {
            self.next(player)
        }
    }

    /// An eight closes the chain.
    pub open spec fn effect_8(self, player: Seq<char>) -> StateView {
        if self.effect.active(8) {
            self.will_flush()
        } else {
            self.next(player)
        }
    }

    /// A nine turns the size of plays from one to three and back.
    pub open spec fn effect_9(self, player: Seq<char>) -> StateView {
        (if self.effect.active(9) {
            self.with_effect(
                EffectView { river_size: turned_size(self.effect.river_size), ..self.effect },
            )
        } else {
            self
        }).next(player)
    }

    /// A ten switches off the rules of ace to nine.
    pub open spec fn effect_10(self, player: Seq<char>) -> StateView {
        (if self.effect.active(10) {
            self.with_effect(
                EffectView {
                    effect_limits: self.effect.effect_limits.union(ranks_between(1, 10)),
                    ..self.effect
                },
            )
        } else {
            self
        }).next(player)
    }

    /// A jack reverses the order of strength for the chain.
    pub open spec fn effect_11(self, player: Seq<char>) -> StateView {
        (if self.effect.active(11) {
            self.with_effect(EffectView { turn_revoluted: true, ..self.effect })
        } else {
            self
        }).next(player)
    }

    /// A queen asks for steps and locks the suits of the play besides those
    /// locked already.
    pub open spec fn effect_12(self, player: Seq<char>, serves: Seq<Card>) -> StateView {
        (if self.effect.active(12) {
            self.with_effect(
                EffectView {
                    is_step: true,
                    suit_limits: self.effect.suit_limits.union(suits_of(serves)),
                    ..self.effect
                },
            )
        } else {
            self
        }).next(player)
    }

    /// A king lets the player take cards from the excluded pile; the turn
    /// goes on besides where the hand or that pile is empty.
    pub open spec fn effect_13(self, player: Seq<char>) -> StateView {
        if self.effect.active(13) {
            let moved = if self.pile(player).len() == 0 || self.pile("excluded"@).len() == 0 {
                self.next(player)
            } else {
                self
            };
            StateView { prompts: moved.prompts.insert(player, "excluded"@), ..moved }
        } else {
            self.next(player)
        }
    }

    /// A two closes the chain into the excluded pile, where the hand and the
    /// discard pile hold cards.
    pub open spec fn effect_2(self, player: Seq<char>) -> StateView {
        if self.effect.active(2) && self.pile(player).len() > 0 && self.pile("trushes"@).len()
            > 0 {
            self.will_flush()
        } else {
            self.next(player)
        }
    }

    /// The play lies on the river and has set the size of the chain's plays.
    pub open spec fn laid(self, serves: Seq<Card>) -> StateView {
        let first = self.effect_revolution(serves);
        StateView {
            river: self.river.push(serves),
            ..first.with_effect(
                EffectView { river_size: Some(serves.len() as usize), ..first.effect },
            )
        }
    }

    /// The play goes to the river and the rule of its rank applies. A rank
    /// that is none of 1 to 13, nor the 14 of a play of free jokers, is
    /// refused.
    pub open spec fn effect_card(self, player: Seq<char>, serves: Seq<Card>) -> Result<
        StateView,
        GameError,
    > {
        let n = number_of(serves);
        let s = self.laid(serves);
        if n == 3 {
            Ok(s.effect_3(player))
        } else if n == 4 {
            Ok(s.effect_4(player))
        } else if n == 5 {
            Ok(s.effect_5(player, serves))
        } else if n == 7 {
            Ok(s.effect_7(player))
        } else if n == 8 {
            Ok(s.effect_8(player))
        } else if n == 9 {
            Ok(s.effect_9(player))
        } else if n == 10 {
            Ok(s.effect_10(player))
        } else if n == 11 {
            Ok(s.effect_11(player))
        } else if n == 12 {
            Ok(s.effect_12(player, serves))
        } else if n == 13 {
            Ok(s.effect_13(player))
        } else if n == 2 {
            Ok(s.effect_2(player))
        } else if n == 6 || n == 1 || n == 14 {
            Ok(s.next(player))
        } else {
            Err(GameError::InvalidRank)
        }
    }
}

pub fn effect_revolution(state: &mut CareerPokerState, _player_id: &str, serves: &Vec<Card>)
    ensures
        final(state)@ == old(state)@.effect_revolution(serves@),
{
    if serves.len() == 4 {
        state.effect.revoluted = !state.effect.revoluted;
    }
}

pub fn effect_3(state: &mut CareerPokerState, player_id: &str, _serves: &Vec<Card>)
    ensures
        final(state)@ == old(state)@.effect_3(player_id@),
{
    if !state.effect.effect_limits.contains(&3) {
        insert_ranks(&mut state.effect.effect_limits, 1, 14);
    }
    state.next(player_id);
}

pub fn effect_4(state: &mut CareerPokerState, player_id: &str, _serves: &Vec<Card>)
    ensures
        final(state)@ == old(state)@.effect_4(player_id@),
{
    if !state.effect.effect_limits.contains(&4) && state.pile(player_id).len() > 0 && state.pile(
        "trushes",
    ).len() > 0 {
        state.prompts.insert(player_id.to_owned(), String::from_str("trushes"));
    } else {
        state.next(player_id);
    }
}

pub fn effect_5(state: &mut CareerPokerState, player_id: &str, serves: &Vec<Card>)
    ensures
        final(state)@ == old(state)@.effect_5(player_id@, serves@),
{
    if !state.effect.effect_limits.contains(&5) {
        state.current = state.relative_from(player_id, 1 + serves.len() as i128);
        let back: bool = match &state.current {
            Some(c) => {
                let me: String = player_id.to_owned();
                *c == me
            },
            None => false,
        };
        if back {
            state.will_flush(player_id, "trushes");
        }
    } else {
        state.next(player_id);
    }
}

pub fn effect_7(state: &mut CareerPokerState, player_id: &str, _serves: &Vec<Card>)
    ensures
        final(state)@ == old(state)@.effect_7(player_id@),
{
    if !state.effect.effect_limits.contains(&7) && state.pile(player_id).len() > 0 {
        state.prompts.insert(player_id.to_owned(), player_id.to_owned());
    } else {
        state.next(player_id);
    }
}

pub fn effect_8(state: &mut CareerPokerState, player_id: &str, _serves: &Vec<Card>)
    ensures
        final(state)@ == old(state)@.effect_8(player_id@),
{
    if !state.effect.effect_limits.contains(&8) {
        state.will_flush(player_id, "trushes");
    } else {
        state.next(player_id);
    }
}

pub fn effect_9(state: &mut CareerPokerState, player_id: &str, _serves: &Vec<Card>)
    ensures
        final(state)@ == old(state)@.effect_9(player_id@),
{
    if !state.effect.effect_limits.contains(&9) {
        state.effect.river_size = match state.effect.river_size {
            Some(1) => Some(3),
            Some(3) => Some(1),
            n => n,
        };
    }
    state.next(player_id);
}

/// Whether a play of nines whose rule is in force has the size that the
/// chain takes: three cards on a chain of one, one card on a chain of three,
/// else as many as the chain has.
pub fn servable_9(state: &CareerPokerState, serves: &Vec<Card>) -> (r: bool)
    requires
        state.effect.river_size is Some,
    ensures
        r == (serves@.len() == toggled(state.effect.river_size->0)),
{
    match state.effect.river_size {
        Some(1) => serves.len() == 3,
        Some(3) => serves.len() == 1,
        Some(n) => serves.len() == n,
        None => false,
    }
}

pub fn effect_10(state: &mut CareerPokerState, player_id: &str, _serves: &Vec<Card>)
    ensures
        final(state)@ == old(state)@.effect_10(player_id@),
{
    if !state.effect.effect_limits.contains(&10) {
        insert_ranks(&mut state.effect.effect_limits, 1, 10);
    }
    state.next(player_id);
}

pub fn effect_11(state: &mut CareerPokerState, player_id: &str, _serves: &Vec<Card>)
    ensures
        final(state)@ == old(state)@.effect_11(player_id@),
{
    if !state.effect.effect_limits.contains(&11) {
        state.effect.turn_revoluted = true;
    }
    state.next(player_id);
}

pub fn effect_12(state: &mut CareerPokerState, player_id: &str, serves: &Vec<Card>)
    ensures
        final(state)@ == old(state)@.effect_12(player_id@, serves@),
{
    if !state.effect.effect_limits.contains(&12) {
        state.effect.is_step = true;
        let shown = suits(serves.as_slice());
        state.effect.suit_limits.extend(&shown);
    }
    state.next(player_id);
}

pub fn effect_13(state: &mut CareerPokerState, player_id: &str, _serves: &Vec<Card>)
    ensures
        final(state)@ == old(state)@.effect_13(player_id@),
{
    if !state.effect.effect_limits.contains(&13) {
        if state.pile(player_id).len() == 0 || state.pile("excluded").len() == 0 {
            state.next(player_id);
        }
        state.prompts.insert(player_id.to_owned(), String::from_str("excluded"));
    } else {
        state.next(player_id);
    }
}

/// Closes the chain for the player who contests it: the task that would
/// close it is cancelled, the river goes to the discard pile and the cards
/// after it, and the turn is the player's.
pub fn effect_one_chance(state: &mut CareerPokerState, player_id: &str, serves: &Vec<Card>)
    ensures
        final(state)@ == old(state)@.effect_one_chance(player_id@, serves@),
{
    match &state.will_flush_task_id {
        Some(task_id) => {
            cancel(state.room_id.clone(), task_id.clone());
        },
        None => {},
    }
    let _ = state.flush(String::from_str("trushes"));
    if state.fields.contains_key("trushes") {
        let mut pile = state.pile("trushes");
        let mut moving = crate::deck::copy_cards(serves.as_slice());
        pile.append(&mut moving);
        state.fields.insert(String::from_str("trushes"), Deck(pile));
    }
    state.current = Some(player_id.to_owned());
}

pub fn effect_2(state: &mut CareerPokerState, player_id: &str, _serves: &Vec<Card>)
    ensures
        final(state)@ == old(state)@.effect_2(player_id@),
{
    if !state.effect.effect_limits.contains(&2) && state.pile(player_id).len() > 0 && state.pile(
        "trushes",
    ).len() > 0 {
        state.will_flush(player_id, "excluded");
    } else {
        state.next(player_id);
    }
}

/// Puts the play on the river.
fn lay(state: &mut CareerPokerState, player_id: &str, serves: &Vec<Card>)
    ensures
        final(state)@ == old(state)@.laid(serves@),
{
    effect_revolution(state, player_id, serves);
    state.river.push(Deck(crate::deck::copy_cards(serves.as_slice())));
    state.effect.river_size = Some(serves.len());
    assert(state@.river =~= old(state)@.river.push(serves@));
}

/// Puts the play on the river and applies the rule of its rank, or changes
/// nothing where the rank is none that a play can have.
pub fn effect_card(state: &mut CareerPokerState, player_id: &str, serves: &Vec<Card>) -> (r:
    Result<(), GameError>)
    ensures
        match old(state)@.effect_card(player_id@, serves@) {
            Ok(s) => r is Ok && final(state)@ == s,
            Err(e) => r == Err::<(), GameError>(e) && final(state)@ == old(state)@,
        },
{
    let n: u8 = number(serves.as_slice());
    if n < 1 || n > 14 {
        return Err(GameError::InvalidRank);
    }
    lay(state, player_id, serves);
    if n == 3 {
        effect_3(state, player_id, serves);
    } else if n == 4 {
        effect_4(state, player_id, serves);
    } else if n == 5 {
        effect_5(state, player_id, serves);
    } else if n == 7 {
        effect_7(state, player_id, serves);
    } else if n == 8 {
        effect_8(state, player_id, serves);
    } else if n == 9 {
        effect_9(state, player_id, serves);
    } else if n == 10 {
        effect_10(state, player_id, serves);
    } else if n == 11 {
        effect_11(state, player_id, serves);
    } else if n == 12 {
        effect_12(state, player_id, serves);
    } else if n == 13 {
        effect_13(state, player_id, serves);
    } else if n == 2 {
        effect_2(state, player_id, serves);
    } else {
        state.next(player_id);
    }
    Ok(())
}

} // verus!
