//! The state of a match as one room keeps it, with its piles under their
//! names, and the actions of the players on it.

use crate::card::{
    cardinal, cardinal_of, is_same_number, match_suits, number, number_of, same_number,
    suits_match, Card, Suit,
};
use crate::deck::{
    arranged, beats, beats_top, copy_cards, full_deck, holds_all, remove_items, without_all, Deck,
};
use crate::effect::{effect_card, effect_one_chance, servable_9, Effect, EffectView};
use crate::error::GameError;
use crate::game::{
    copy_maybe_text, copy_texts, maybe_text, seat_at, spilled, texts, wrap_add, wrap_sub,
};
use crate::events::answer::{chance_of, takes_effect};
use crate::events::serve::toggled;
use crate::mock::{rand, reserve};
use crate::text_map::{entries_view, TextMap};
use vstd::prelude::*;

verus! {

/// The state of a match in a room. The piles go by name: the hand of a player
/// by the player's, the discard pile by "trushes", and the cards that have
/// left the match by "excluded".
#[derive(Debug)]
pub struct CareerPokerState {
    pub room_id: String,
    /// The player whose turn it is.
    pub current: Option<String>,
    /// The players in the order in which they sit.
    pub players: Vec<String>,
    /// The plays of the current chain, the latest last.
    pub river: Vec<Deck>,
    /// The task that will close the chain.
    pub will_flush_task_id: Option<String>,
    /// The player who holds the chain.
    pub last_served_player_id: Option<String>,
    /// The hands of the players, the discard pile and the excluded pile.
    pub fields: TextMap<Deck>,
    pub effect: Effect,
    /// For each player who has cards to choose, the pile to choose from.
    pub prompts: TextMap<String>,
}

/// What a `CareerPokerState` holds, as plain values.
#[verifier::ext_equal]
pub struct StateView {
    pub room_id: Seq<char>,
    pub current: Option<Seq<char>>,
    pub players: Seq<Seq<char>>,
    pub river: Seq<Seq<Card>>,
    pub will_flush_task_id: Option<Seq<char>>,
    pub last_served_player_id: Option<Seq<char>>,
    pub fields: Map<Seq<char>, Seq<Card>>,
    pub effect: EffectView,
    pub prompts: Map<Seq<char>, Seq<char>>,
}

/// The cards of a list of decks.
pub open spec fn plays(v: Seq<Deck>) -> Seq<Seq<Card>> {
    Seq::new(v.len(), |i: int| v[i]@)
}

impl View for CareerPokerState {
    type V = StateView;

    open spec fn view(&self) -> StateView {
        StateView {
            room_id: self.room_id@,
            current: maybe_text(self.current),
            players: texts(self.players@),
            river: plays(self.river@),
            will_flush_task_id: maybe_text(self.will_flush_task_id),
            last_served_player_id: maybe_text(self.last_served_player_id),
            fields: self.fields@,
            effect: self.effect@,
            prompts: self.prompts@,
        }
    }
}

/// The actions on a match.
#[derive(Debug)]
pub enum Action {
    Distribute,
    Pass { player_id: String },
    Flush { to: String },
    OneChance { player_id: String, serves: Vec<Card> },
    Select { from: String, player_id: String, serves: Vec<Card> },
    ServeAnother { player_id: String, serves: Vec<Card> },
    Serve { player_id: String, serves: Vec<Card> },
}

/// The time in milliseconds after which a chain closes by itself.
pub const FLUSH_TIMEOUT: u32 = 5000;

/// Reserves the task that closes the chain into the pile `to`, and names it.
pub fn will_flush(player_id: String, room_id: String, to: String) -> (id: String)
    ensures
        id@ == "dummy"@,
{
    reserve(player_id, room_id, to, FLUSH_TIMEOUT)
}

/// What an `Action` holds, as plain values.
pub enum ActionView {
    Distribute,
    Pass { player_id: Seq<char> },
    Flush { to: Seq<char> },
    OneChance { player_id: Seq<char>, serves: Seq<Card> },
    Select { from: Seq<char>, player_id: Seq<char>, serves: Seq<Card> },
    ServeAnother { player_id: Seq<char>, serves: Seq<Card> },
    Serve { player_id: Seq<char>, serves: Seq<Card> },
}

impl View for Action {
    type V = ActionView;

    open spec fn view(&self) -> ActionView {
        match self {
            Action::Distribute => ActionView::Distribute,
            Action::Pass { player_id } => ActionView::Pass { player_id: player_id@ },
            Action::Flush { to } => ActionView::Flush { to: to@ },
            Action::OneChance { player_id, serves } => ActionView::OneChance {
                player_id: player_id@,
                serves: serves@,
            },
            Action::Select { from, player_id, serves } => ActionView::Select {
                from: from@,
                player_id: player_id@,
                serves: serves@,
            },
            Action::ServeAnother { player_id, serves } => ActionView::ServeAnother {
                player_id: player_id@,
                serves: serves@,
            },
            Action::Serve { player_id, serves } => ActionView::Serve {
                player_id: player_id@,
                serves: serves@,
            },
        }
    }
}

/// The smaller of two sizes.
pub open spec fn least(a: nat, b: nat) -> nat {
    if a <= b {
        a
    } else {
        b
    }
}

impl StateView {
    /// The match with the task reserved that closes the chain.
    pub open spec fn will_flush(self) -> StateView {
        StateView { will_flush_task_id: Some("dummy"@), ..self }
    }

    /// Closes the chain: the cards of the river go to the end of the pile
    /// `to`, the river is empty, of the rules only the lasting reversal
    /// stays, and the turn goes to the player who holds the chain.
    pub open spec fn flush(self, to: Seq<char>) -> Result<StateView, GameError> {
        if !self.fields.contains_key(to) {
            Err(GameError::FieldNotFound)
        } else {
            Ok(
                StateView {
                    fields: self.fields.insert(to, self.fields[to] + spilled(self.river)),
                    effect: self.effect.next_chain(),
                    river: Seq::empty(),
                    current: self.last_served_player_id,
                    ..self
                },
            )
        }
    }

    /// The turn goes to the next player with cards after `player`. Where that
    /// is the player who holds the chain, or nobody, the task that closes the
    /// chain is reserved.
    pub open spec fn next(self, player: Seq<char>) -> StateView {
        let c = self.relative_player(player, 1);
        let moved = StateView { current: c, ..self };
        if c == self.last_served_player_id || c is None {
            moved.will_flush()
        } else {
            moved
        }
    }

    /// The player passes: the turn goes on, unless the river is empty.
    pub open spec fn pass(self, player: Seq<char>) -> Result<StateView, GameError> {
        if self.river.len() == 0 {
            Err(GameError::RiverEmpty)
        } else {
            Ok(self.next(player))
        }
    }

    /// The cards leave the pile `from` for the end of the pile `to`. Both
    /// piles must be there and the first must hold the cards.
    pub open spec fn transfer(self, from: Seq<char>, to: Seq<char>, cards: Seq<Card>) -> Result<
        StateView,
        GameError,
    > {
        if !self.fields.contains_key(from) {
            Err(GameError::FieldNotFound)
        } else if !holds_all(self.fields[from], cards) {
            Err(GameError::NotFound)
        } else if !self.fields.contains_key(to) {
            Err(GameError::FieldNotFound)
        } else {
            let taken = self.fields.insert(from, without_all(self.fields[from], cards));
            Ok(StateView { fields: taken.insert(to, taken[to] + cards), ..self })
        }
    }

    /// The match after the player has taken part in what a prompt asked for:
    /// the prompt is gone and the turn goes on.
    pub open spec fn answered(self, player: Seq<char>) -> StateView {
        (StateView { prompts: self.prompts.remove(player), ..self }).next(player)
    }

    /// The player takes cards from the pile `from`, as many as the latest
    /// play has or, where that pile has fewer, as many as that.
    pub open spec fn select_from(self, from: Seq<char>, player: Seq<char>, serves: Seq<Card>)
        -> Result<StateView, GameError> {
        if self.river.len() == 0 {
            Err(GameError::RiverEmpty)
        } else if !self.fields.contains_key(from) {
            Err(GameError::FieldNotFound)
        } else if least(self.fields[from].len(), self.river.last().len()) != serves.len() {
            Err(GameError::InvalidAnswer)
        } else {
            match self.transfer(from, player, serves) {
                Err(e) => Err(e),
                Ok(s) => Ok(s.answered(player)),
            }
        }
    }

    /// The player hands cards to the first player with cards a seat back, as
    /// many as the latest play has or, where the hand has fewer, as many as
    /// that.
    pub open spec fn select_passes(self, player: Seq<char>, serves: Seq<Card>) -> Result<
        StateView,
        GameError,
    > {
        if self.river.len() == 0 {
            Err(GameError::RiverEmpty)
        } else if !self.fields.contains_key(player) {
            Err(GameError::FieldNotFound)
        } else if least(self.fields[player].len(), self.river.last().len()) != serves.len() {
            Err(GameError::InvalidAnswer)
        } else {
            match self.relative_player(player, -1) {
                None => Err(GameError::MatchEnded),
                Some(left) => match self.transfer(player, left, serves) {
                    Err(e) => Err(e),
                    Ok(s) => Ok(s.answered(player)),
                },
            }
        }
    }

    /// The cards lie on the discard pile after the chain was closed into it,
    /// and it is the player's turn.
    pub open spec fn effect_one_chance(self, player: Seq<char>, serves: Seq<Card>) -> StateView {
        let closed = match self.flush("trushes"@) {
            Ok(s) => s,
            Err(_) => self,
        };
        StateView {
            fields: if closed.fields.contains_key("trushes"@) {
                closed.fields.insert("trushes"@, closed.fields["trushes"@] + serves)
            } else {
                closed.fields
            },
            current: Some(player),
            ..closed
        }
    }

    /// The player contests the chain with cards that go to the discard pile;
    /// where `chance` allows, the chain closes and the turn is the player's.
    /// Refused where the rule of the ace is switched off or the cards are the
    /// whole hand.
    pub open spec fn one_chance(self, player: Seq<char>, serves: Seq<Card>, chance: bool)
        -> Result<StateView, GameError> {
        if !self.fields.contains_key(player) {
            Err(GameError::FieldNotFound)
        } else if !self.effect.active(1) || self.fields[player] == serves {
            Err(GameError::InvalidAnswer)
        } else {
            match self.transfer(player, "trushes"@, serves) {
                Err(e) => Err(e),
                Ok(s) => if chance {
                    Ok(s.effect_one_chance(player, serves))
                } else {
                    Ok(s)
                },
            }
        }
    }
}

/// The piles with an empty hand for each of the players.
pub open spec fn with_empty_hands(
    fields: Map<Seq<char>, Seq<Card>>,
    players: Seq<Seq<char>>,
) -> Map<Seq<char>, Seq<Card>>
    decreases players.len(),
{
    if players.len() == 0 {
        fields
    } else {
        with_empty_hands(fields, players.drop_last()).insert(players.last(), Seq::empty())
    }
}

/// The piles after the cards were dealt one by one to the hands of the
/// players in turn.
pub open spec fn dealt_to(
    fields: Map<Seq<char>, Seq<Card>>,
    players: Seq<Seq<char>>,
    cards: Seq<Card>,
) -> Map<Seq<char>, Seq<Card>>
    decreases cards.len(),
{
    if cards.len() == 0 {
        fields
    } else {
        let before = dealt_to(fields, players, cards.drop_last());
        let name = players[(cards.len() - 1) % (players.len() as int)];
        if before.contains_key(name) {
            before.insert(name, before[name].push(cards.last()))
        } else {
            before
        }
    }
}

/// The piles with the hand of each of the players sorted by strength.
pub open spec fn with_sorted_hands(
    fields: Map<Seq<char>, Seq<Card>>,
    players: Seq<Seq<char>>,
) -> Map<Seq<char>, Seq<Card>>
    decreases players.len(),
{
    if players.len() == 0 {
        fields
    } else {
        let before = with_sorted_hands(fields, players.drop_last());
        if before.contains_key(players.last()) {
            before.insert(players.last(), arranged(before[players.last()]))
        } else {
            before
        }
    }
}

impl StateView {
    /// The number of cards that a play must have: that of the chain, turned
    /// from one to three or back where the play is of nines and their rule is
    /// in force.
    pub open spec fn expected_size(self, serves: Seq<Card>) -> Option<usize> {
        match self.effect.river_size {
            None => None,
            Some(n) => if number_of(serves) == 9 && self.effect.active(9) {
                Some(toggled(n))
            } else {
                Some(n)
            },
        }
    }

    /// Why the cards may not be played now, if they may not: they are of
    /// more than one rank, or a play lies on the river and they do not beat
    /// it, are not as many as the chain asks for (nothing is where no size is
    /// set), are no step above it where steps are asked for, or lack a suit
    /// of it where suits are locked.
    pub open spec fn refusal(self, serves: Seq<Card>) -> Option<GameError> {
        if !same_number(serves) {
            Some(GameError::NotSameNumber)
        } else if self.river.len() == 0 {
            None
        } else if !beats_top(
            serves,
            self.river.last(),
            self.effect.revoluted != self.effect.turn_revoluted,
        ) {
            Some(GameError::MustBeatTop)
        } else if !(self.expected_size(serves) matches Some(n) && n == serves.len()) {
            Some(GameError::SizeMismatch)
        } else if self.effect.is_step && cardinal_of(number_of(serves)) - cardinal_of(
            number_of(self.river.last()),
        ) != 1 {
            Some(GameError::MustStep)
        } else if self.effect.suit_limits != Set::<Suit>::empty() && !suits_match(
            self.river.last(),
            serves,
        ) {
            Some(GameError::SuitMismatch)
        } else {
            None
        }
    }

    /// Whether the cards may be played now.
    pub open spec fn servable(self, serves: Seq<Card>) -> bool {
        self.refusal(serves) is None
    }

    /// The player plays the cards: they leave the hand where it holds them
    /// all, go to the river, and the rule of their rank applies. The chain is
    /// then the player's, or the next player's where the hand is empty.
    /// Refused are no cards, cards that may not be played, a player without a
    /// hand, and a play after which nobody holds cards.
    pub open spec fn serve(self, player: Seq<char>, serves: Seq<Card>) -> Result<
        StateView,
        GameError,
    > {
        if serves.len() == 0 {
            Err(GameError::EmptySelection)
        } else if self.refusal(serves) is Some {
            Err(self.refusal(serves)->0)
        } else if !self.fields.contains_key(player) {
            Err(GameError::FieldNotFound)
        } else {
            let rest = if holds_all(self.fields[player], serves) {
                without_all(self.fields[player], serves)
            } else {
                self.fields[player]
            };
            let taken = StateView { fields: self.fields.insert(player, rest), ..self };
            let played = match taken.effect_card(player, serves) {
                Ok(s) => s,
                Err(_) => taken,
            };
            let holder = if played.pile(player).len() == 0 {
                played.relative_player(player, 1)
            } else {
                played.relative_player(player, 0)
            };
            if holder is None {
                Err(GameError::MatchEnded)
            } else {
                Ok(StateView { last_served_player_id: holder, ..played })
            }
        }
    }

    /// The cards are dealt: each player gets an empty hand, the full deck with
    /// two jokers goes card by card to the hands in turn, each hand is sorted,
    /// and the first player is on turn. Refused where nobody sits at the
    /// table.
    pub open spec fn distribute(self) -> Result<StateView, GameError> {
        if self.players.len() == 0 {
            Err(GameError::PlayersEmpty)
        } else {
            Ok(
                StateView {
                    fields: with_sorted_hands(
                        dealt_to(
                            with_empty_hands(self.fields, self.players),
                            self.players,
                            full_deck(2),
                        ),
                        self.players,
                    ),
                    current: Some(self.players[0]),
                    ..self
                },
            )
        }
    }

    /// What the action makes of the match, where `chance` says whether a
    /// contest takes effect.
    pub open spec fn action(self, action: ActionView, chance: bool) -> Result<
        StateView,
        GameError,
    > {
        match action {
            ActionView::Distribute => self.distribute(),
            ActionView::Pass { player_id } => self.pass(player_id),
            ActionView::Flush { to } => self.flush(to),
            ActionView::OneChance { player_id, serves } => self.one_chance(
                player_id,
                serves,
                chance,
            ),
            ActionView::Select { from, player_id, serves } => if from == "trushes"@ || from
                == "excluded"@ {
                self.select_from(from, player_id, serves)
            } else {
                Err(GameError::FieldNotFound)
            },
            ActionView::ServeAnother { player_id, serves } => self.select_passes(
                player_id,
                serves,
            ),
            ActionView::Serve { player_id, serves } => self.serve(player_id, serves),
        }
    }
}

/// The number of piles among the entries that hold cards.
pub open spec fn holding_in(entries: Seq<(String, Deck)>) -> nat
    decreases entries.len(),
{
    if entries.len() == 0 {
        0
    } else if entries.last().1@.len() > 0 {
        holding_in(entries.drop_last()) + 1
    } else {
        holding_in(entries.drop_last())
    }
}

/// Whether the state after an action and its result are what `model` says:
/// the new state where it succeeds, else its error and the state as it was.
pub open spec fn result_of(
    before: StateView,
    after: StateView,
    r: Result<(), GameError>,
    model: Result<StateView, GameError>,
) -> bool {
    match model {
        Ok(s) => r is Ok && after == s,
        Err(e) => r == Err::<(), GameError>(e) && after == before,
    }
}

/// Whether two piles hold the same cards in the same order.
pub fn same_cards(a: &[Card], b: &[Card]) -> (r: bool)
    ensures
        r == (a@ == b@),
{
    if a.len() != b.len() {
        return false;
    }
    let mut i: usize = 0;
    while i < a.len()
        invariant
            i <= a.len(),
            a@.len() == b@.len(),
            forall|k: int| 0 <= k < i ==> a@[k] == b@[k],
        decreases a.len() - i,
    {
        if a[i] != b[i] {
            return false;
        }
        i += 1;
    }
    assert(a@ =~= b@);
    true
}

/// Why the cards may not be played now, if they may not.
pub fn refusal(state: &CareerPokerState, serves: &Vec<Card>) -> (r: Option<GameError>)
    ensures
        r == state@.refusal(serves@),
{
    broadcast use vstd::std_specs::hash::group_hash_axioms;

    let play = serves.as_slice();
    if !is_same_number(play) {
        return Some(GameError::NotSameNumber);
    }
    if state.river.len() == 0 {
        return None;
    }
    let top = state.river[state.river.len() - 1].0.as_slice();
    let reversed: bool = state.effect.revoluted != state.effect.turn_revoluted;
    if !beats(play, top, reversed) {
        return Some(GameError::MustBeatTop);
    }
    let n: u8 = number(play);
    let sized: bool = match state.effect.river_size {
        None => false,
        Some(size) => if n == 9 && !state.effect.effect_limits.contains(&9) {
            servable_9(state, serves)
        } else {
            play.len() == size
        },
    };
    if !sized {
        return Some(GameError::SizeMismatch);
    }
    if state.effect.is_step && cardinal(n) - cardinal(number(top)) != 1 {
        return Some(GameError::MustStep);
    }
    if !state.effect.suit_limits.is_empty() && !match_suits(top, play) {
        return Some(GameError::SuitMismatch);
    }
    None
}

/// Whether the cards may be played now.
pub fn servable(state: &CareerPokerState, serves: &Vec<Card>) -> (r: bool)
    ensures
        r == state@.servable(serves@),
{
    match refusal(state, serves) {
        Some(_) => false,
        None => true,
    }
}

impl StateView {
    /// The match of a room before anybody has joined: no players, and empty
    /// discard and excluded piles.
    pub open spec fn fresh(room_id: Seq<char>) -> StateView {
        StateView {
            room_id: room_id,
            current: None,
            players: Seq::empty(),
            river: Seq::empty(),
            will_flush_task_id: None,
            last_served_player_id: None,
            fields: Map::<Seq<char>, Seq<Card>>::empty().insert("trushes"@, Seq::empty()).insert(
                "excluded"@,
                Seq::empty(),
            ),
            effect: EffectView::fresh(),
            prompts: Map::empty(),
        }
    }

    /// The first seat at which the player sits.
    pub open spec fn seat_of(self, id: Seq<char>) -> Option<int> {
        if self.players.contains(id) {
            Some(choose|i: int| seat_at(self.players, id, i))
        } else {
            None
        }
    }

    /// The cards of the pile of the given name; none where there is no such
    /// pile.
    pub open spec fn pile(self, name: Seq<char>) -> Seq<Card> {
        if self.fields.contains_key(name) {
            self.fields[name]
        } else {
            Seq::empty()
        }
    }

    /// The seat that is `delta` seats on from the seat `from`.
    pub open spec fn seat_after(self, from: int, delta: int) -> int {
        (from + delta) % (self.players.len() as int)
    }

    /// The first player who holds cards among those who sit `delta` to `last`
    /// seats on from the seat `from`.
    pub open spec fn seek(self, from: int, delta: int, last: int) -> Option<Seq<char>>
        decreases last - delta + 1,
    {
        if delta > last {
            None
        } else if self.pile(self.players[self.seat_after(from, delta)]).len() > 0 {
            Some(self.players[self.seat_after(from, delta)])
        } else {
            self.seek(from, delta + 1, last)
        }
    }

    /// The seats up to which `relative_player` looks for a player with cards:
    /// once round the table, and from further than once round, one round
    /// more.
    pub open spec fn seek_end(self, d: int) -> int {
        if d <= self.players.len() {
            self.players.len() as int
        } else {
            d + self.players.len() - 1
        }
    }

    /// The first player with cards from `d` seats after the player on.
    pub open spec fn relative_player(self, player: Seq<char>, d: int) -> Option<Seq<char>> {
        match self.seat_of(player) {
            None => None,
            Some(from) => self.seek(from, d, self.seek_end(d)),
        }
    }
}

/// A copy of a list of decks.
pub fn copy_plays(v: &Vec<Deck>) -> (r: Vec<Deck>)
    ensures
        plays(r@) == plays(v@),
{
    let mut r: Vec<Deck> = Vec::new();
    let mut i: usize = 0;
    while i < v.len()
        invariant
            i <= v.len(),
            r@.len() == i,
            forall|k: int| 0 <= k < i ==> r@[k]@ == v@[k]@,
        decreases v.len() - i,
    {
        r.push(v[i].clone());
        i += 1;
    }
    assert(plays(r@) =~= plays(v@));
    r
}

/// A copy of the piles under their names.
pub fn copy_fields(m: &TextMap<Deck>) -> (r: TextMap<Deck>)
    ensures
        r@ == m@,
{
    let mut entries: Vec<(String, Deck)> = Vec::new();
    let mut i: usize = 0;
    while i < m.entries.len()
        invariant
            i <= m.entries.len(),
            entries@.len() == i,
            entries_view(entries@) == entries_view(m.entries@.take(i as int)),
        decreases m.entries.len() - i,
    {
        let ghost before = entries@;
        entries.push((m.entries[i].0.clone(), m.entries[i].1.clone()));
        proof {
            assert(entries@.drop_last() =~= before);
            assert(m.entries@.take(i + 1).drop_last() =~= m.entries@.take(i as int));
            assert(m.entries@.take(i + 1).last() == m.entries@[i as int]);
        }
        i += 1;
    }
    assert(m.entries@.take(m.entries@.len() as int) =~= m.entries@);
    TextMap { entries }
}

/// A copy of the texts under their names.
pub fn copy_notes(m: &TextMap<String>) -> (r: TextMap<String>)
    ensures
        r@ == m@,
{
    let mut entries: Vec<(String, String)> = Vec::new();
    let mut i: usize = 0;
    while i < m.entries.len()
        invariant
            i <= m.entries.len(),
            entries@.len() == i,
            entries_view(entries@) == entries_view(m.entries@.take(i as int)),
        decreases m.entries.len() - i,
    {
        let ghost before = entries@;
        entries.push((m.entries[i].0.clone(), m.entries[i].1.clone()));
        proof {
            assert(entries@.drop_last() =~= before);
            assert(m.entries@.take(i + 1).drop_last() =~= m.entries@.take(i as int));
            assert(m.entries@.take(i + 1).last() == m.entries@[i as int]);
        }
        i += 1;
    }
    assert(m.entries@.take(m.entries@.len() as int) =~= m.entries@);
    TextMap { entries }
}

impl Default for CareerPokerState {
    fn default() -> (s: CareerPokerState)
        ensures
            s@ == StateView::fresh(Seq::<char>::empty()),
    {
        CareerPokerState::new(String::new())
    }
}

impl Clone for CareerPokerState {
    fn clone(&self) -> (r: CareerPokerState)
        ensures
            r@ == self@,
    {
        CareerPokerState {
            room_id: self.room_id.clone(),
            current: copy_maybe_text(&self.current),
            players: copy_texts(&self.players),
            river: copy_plays(&self.river),
            will_flush_task_id: copy_maybe_text(&self.will_flush_task_id),
            last_served_player_id: copy_maybe_text(&self.last_served_player_id),
            fields: copy_fields(&self.fields),
            effect: self.effect.clone(),
            prompts: copy_notes(&self.prompts),
        }
    }
}

/// The first seat of a player is one seat only.
pub proof fn lemma_state_seat(s: StateView, id: Seq<char>, i: int)
    requires
        seat_at(s.players, id, i),
    ensures
        s.seat_of(id) == Some(i),
{
    assert(s.players.contains(id));
    let j = choose|j: int| seat_at(s.players, id, j);
    if i < j {
        assert(s.players[i] != id);
    }
    if j < i {
        assert(s.players[j] != id);
    }
}

impl CareerPokerState {
    /// The match of a room before anybody has joined.
    pub fn new(room_id: String) -> (s: CareerPokerState)
        ensures
            s@ == StateView::fresh(room_id@),
    {
        let mut fields: TextMap<Deck> = TextMap::new();
        fields.insert(String::from_str("trushes"), Deck::new(Vec::new()));
        fields.insert(String::from_str("excluded"), Deck::new(Vec::new()));
        let s = CareerPokerState {
            room_id,
            current: None,
            players: Vec::new(),
            river: Vec::new(),
            will_flush_task_id: None,
            last_served_player_id: None,
            fields,
            effect: Effect::new(),
            prompts: TextMap::new(),
        };
        proof {
            let v = StateView::fresh(room_id@);
            assert(s@.players =~= v.players);
            assert(s@.river =~= v.river);
        }
        s
    }

    /// The first seat at which the player sits.
    pub fn seat_of(&self, player_id: &str) -> (r: Option<usize>)
        ensures
            match r {
                Some(i) => self@.seat_of(player_id@) == Some(i as int) && i < self.players@.len(),
                None => self@.seat_of(player_id@) is None,
            },
    {
        let key: String = player_id.to_owned();
        let mut i: usize = 0;
        while i < self.players.len()
            invariant
                i <= self.players.len(),
                key@ == player_id@,
                forall|k: int| 0 <= k < i ==> self@.players[k] != player_id@,
            decreases self.players.len() - i,
        {
            if self.players[i] == key {
                proof {
                    lemma_state_seat(self@, player_id@, i as int);
                }
                return Some(i);
            }
            i += 1;
        }
        assert(!self@.players.contains(player_id@));
        None
    }

    /// The cards of the pile of the given name; none where there is no such
    /// pile.
    pub fn pile(&self, name: &str) -> (r: Vec<Card>)
        ensures
            r@ == self@.pile(name@),
    {
        match self.fields.get(name) {
            Some(deck) => copy_cards(deck.0.as_slice()),
            None => Vec::new(),
        }
    }

    /// Reserves the task that closes the chain into the pile `to`.
    pub fn will_flush(&mut self, player_id: &str, to: &str)
        ensures
            final(self)@ == old(self)@.will_flush(),
    {
        self.will_flush_task_id = Some(
            will_flush(player_id.to_owned(), self.room_id.clone(), to.to_owned()),
        );
    }

    /// The cards of the plays on the river, the earliest play first.
    pub fn river_cards(&self) -> (r: Vec<Card>)
        ensures
            r@ == spilled(self@.river),
    {
        let mut r: Vec<Card> = Vec::new();
        let mut i: usize = 0;
        while i < self.river.len()
            invariant
                i <= self.river.len(),
                r@ == spilled(self@.river.take(i as int)),
            decreases self.river.len() - i,
        {
            let play = copy_cards(self.river[i].0.as_slice());
            proof {
                let now = self@.river.take(i + 1);
                assert(now.drop_last() =~= self@.river.take(i as int));
                assert(now.last() == play@);
            }
            let mut moving = play;
            r.append(&mut moving);
            i += 1;
        }
        assert(self@.river.take(self@.river.len() as int) =~= self@.river);
        r
    }

    /// Closes the chain into the pile `to`, or changes nothing where there is
    /// no such pile.
    pub fn flush(&mut self, to: String) -> (r: Result<(), GameError>)
        ensures
            match old(self)@.flush(to@) {
                Ok(s) => r is Ok && final(self)@ == s,
                Err(e) => r == Err::<(), GameError>(e) && final(self)@ == old(self)@,
            },
    {
        let mut pile: Vec<Card> = match self.fields.get(to.as_str()) {
            Some(deck) => copy_cards(deck.0.as_slice()),
            None => {
                return Err(GameError::FieldNotFound);
            },
        };
        let mut cards = self.river_cards();
        pile.append(&mut cards);
        self.fields.insert(to, Deck(pile));
        let lasting: bool = self.effect.revoluted;
        let mut effect = Effect::new();
        effect.revoluted = lasting;
        self.effect = effect;
        self.river = Vec::new();
        self.current = copy_maybe_text(&self.last_served_player_id);
        assert(self@.river =~= Seq::<Seq<Card>>::empty());
        Ok(())
    }

    /// Gives the turn to the next player with cards after the given one.
    pub fn next(&mut self, player_id: &str)
        ensures
            final(self)@ == old(self)@.next(player_id@),
    {
        self.current = self.get_relative_player(player_id, 1);
        let close: bool = match &self.current {
            None => true,
            Some(c) => match &self.last_served_player_id {
                Some(l) => *c == *l,
                None => false,
            },
        };
        if close {
            self.will_flush(player_id, "trushes");
        }
    }

    /// The player passes.
    pub fn pass(&mut self, player_id: String) -> (r: Result<(), GameError>)
        ensures
            match old(self)@.pass(player_id@) {
                Ok(s) => r is Ok && final(self)@ == s,
                Err(e) => r == Err::<(), GameError>(e) && final(self)@ == old(self)@,
            },
    {
        if self.river.len() == 0 {
            return Err(GameError::RiverEmpty);
        }
        self.next(player_id.as_str());
        Ok(())
    }

    /// Moves the cards from the pile `from_deck_id` to the end of the pile
    /// `to_deck_id`. Nothing changes where a pile is missing or the first
    /// lacks one of the cards.
    pub fn transfer(&mut self, from_deck_id: &str, to_deck_id: &str, cards: &Vec<Card>) -> (r:
        Result<(), GameError>)
        ensures
            match old(self)@.transfer(from_deck_id@, to_deck_id@, cards@) {
                Ok(s) => r is Ok && final(self)@ == s,
                Err(e) => r == Err::<(), GameError>(e) && final(self)@ == old(self)@,
            },
    {
        let mut rest: Vec<Card> = match self.fields.get(from_deck_id) {
            Some(deck) => copy_cards(deck.0.as_slice()),
            None => {
                return Err(GameError::FieldNotFound);
            },
        };
        match remove_items(&mut rest, cards.as_slice()) {
            Ok(()) => {},
            Err(e) => {
                return Err(e);
            },
        }
        if !self.fields.contains_key(to_deck_id) {
            return Err(GameError::FieldNotFound);
        }
        self.fields.insert(from_deck_id.to_owned(), Deck(rest));
        let mut pile: Vec<Card> = self.pile(to_deck_id);
        let mut moving: Vec<Card> = copy_cards(cards.as_slice());
        pile.append(&mut moving);
        self.fields.insert(to_deck_id.to_owned(), Deck(pile));
        Ok(())
    }

    /// Takes the prompt of the player away and gives the turn on.
    pub fn answered(&mut self, player_id: &str)
        ensures
            final(self)@ == old(self)@.answered(player_id@),
    {
        self.prompts.remove(player_id);
        self.next(player_id);
    }

    /// The number of cards that a prompt asks for: as many as the latest play
    /// has or, where the pile `name` has fewer, as many as that.
    fn asked_size(&self, name: &str) -> (r: Result<usize, GameError>)
        ensures
            match r {
                Ok(n) => self@.river.len() > 0 && self@.fields.contains_key(name@) && n == least(
                    self@.fields[name@].len(),
                    self@.river.last().len(),
                ),
                Err(e) => e == (if self@.river.len() == 0 {
                    GameError::RiverEmpty
                } else {
                    GameError::FieldNotFound
                }) && (self@.river.len() == 0 || !self@.fields.contains_key(name@)),
            },
    {
        if self.river.len() == 0 {
            return Err(GameError::RiverEmpty);
        }
        let top: usize = self.river[self.river.len() - 1].0.len();
        match self.fields.get(name) {
            Some(deck) => {
                if deck.0.len() <= top {
                    Ok(deck.0.len())
                } else {
                    Ok(top)
                }
            },
            None => Err(GameError::FieldNotFound),
        }
    }

    /// The steps of taking cards from a pile, on a copy of the match.
    fn select_from(&mut self, from: &str, player_id: String, serves: Vec<Card>) -> (r: Result<
        (),
        GameError,
    >)
        ensures
            match old(self)@.select_from(from@, player_id@, serves@) {
                Ok(s) => r is Ok && final(self)@ == s,
                Err(e) => r == Err::<(), GameError>(e),
            },
    {
        let n: usize = match self.asked_size(from) {
            Ok(n) => n,
            Err(e) => {
                return Err(e);
            },
        };
        if n != serves.len() {
            return Err(GameError::InvalidAnswer);
        }
        match self.transfer(from, player_id.as_str(), &serves) {
            Ok(()) => {},
            Err(e) => {
                return Err(e);
            },
        }
        self.answered(player_id.as_str());
        Ok(())
    }

    /// The player takes cards from the discard pile.
    pub fn select_trushes(&mut self, player_id: String, serves: Vec<Card>) -> (r: Result<
        (),
        GameError,
    >)
        ensures
            match old(self)@.select_from("trushes"@, player_id@, serves@) {
                Ok(s) => r is Ok && final(self)@ == s,
                Err(e) => r == Err::<(), GameError>(e) && final(self)@ == old(self)@,
            },
    {
        let mut work = self.clone();
        let r = work.select_from("trushes", player_id, serves);
        if r.is_ok() {
            *self = work;
        }
        r
    }

    /// The player takes cards from the excluded pile.
    pub fn select_excluded(&mut self, player_id: String, serves: Vec<Card>) -> (r: Result<
        (),
        GameError,
    >)
        ensures
            match old(self)@.select_from("excluded"@, player_id@, serves@) {
                Ok(s) => r is Ok && final(self)@ == s,
                Err(e) => r == Err::<(), GameError>(e) && final(self)@ == old(self)@,
            },
    {
        let mut work = self.clone();
        let r = work.select_from("excluded", player_id, serves);
        if r.is_ok() {
            *self = work;
        }
        r
    }

    /// The steps of handing cards on, on a copy of the match.
    fn passes_on(&mut self, player_id: String, serves: Vec<Card>) -> (r: Result<(), GameError>)
        ensures
            match old(self)@.select_passes(player_id@, serves@) {
                Ok(s) => r is Ok && final(self)@ == s,
                Err(e) => r == Err::<(), GameError>(e),
            },
    {
        let n: usize = match self.asked_size(player_id.as_str()) {
            Ok(n) => n,
            Err(e) => {
                return Err(e);
            },
        };
        if n != serves.len() {
            return Err(GameError::InvalidAnswer);
        }
        let left: String = match self.get_relative_player(player_id.as_str(), -1) {
            Some(left) => left,
            None => {
                return Err(GameError::MatchEnded);
            },
        };
        match self.transfer(player_id.as_str(), left.as_str(), &serves) {
            Ok(()) => {},
            Err(e) => {
                return Err(e);
            },
        }
        self.answered(player_id.as_str());
        Ok(())
    }

    /// The player hands cards to the first player with cards a seat back.
    pub fn select_passes(&mut self, player_id: String, serves: Vec<Card>) -> (r: Result<
        (),
        GameError,
    >)
        ensures
            match old(self)@.select_passes(player_id@, serves@) {
                Ok(s) => r is Ok && final(self)@ == s,
                Err(e) => r == Err::<(), GameError>(e) && final(self)@ == old(self)@,
            },
    {
        let mut work = self.clone();
        let r = work.passes_on(player_id, serves);
        if r.is_ok() {
            *self = work;
        }
        r
    }

    /// The steps of a contest, on a copy of the match.
    fn contest(&mut self, player_id: String, serves: Vec<Card>, chance: bool) -> (r: Result<
        (),
        GameError,
    >)
        ensures
            match old(self)@.one_chance(player_id@, serves@, chance) {
                Ok(s) => r is Ok && final(self)@ == s,
                Err(e) => r == Err::<(), GameError>(e),
            },
    {
        broadcast use vstd::std_specs::hash::group_hash_axioms;

        let whole: bool = match self.fields.get(player_id.as_str()) {
            Some(hand) => same_cards(hand.0.as_slice(), serves.as_slice()),
            None => {
                return Err(GameError::FieldNotFound);
            },
        };
        if self.effect.effect_limits.contains(&1) || whole {
            return Err(GameError::InvalidAnswer);
        }
        match self.transfer(player_id.as_str(), "trushes", &serves) {
            Ok(()) => {},
            Err(e) => {
                return Err(e);
            },
        }
        if chance {
            effect_one_chance(self, player_id.as_str(), &serves);
        }
        Ok(())
    }

    /// The player contests the chain with the cards, where `chance` says
    /// whether the contest takes effect.
    pub fn one_chance(&mut self, player_id: String, serves: Vec<Card>, chance: bool) -> (r:
        Result<(), GameError>)
        ensures
            result_of(
                old(self)@,
                final(self)@,
                r,
                old(self)@.one_chance(player_id@, serves@, chance),
            ),
    {
        let mut work = self.clone();
        let r = work.contest(player_id, serves, chance);
        if r.is_ok() {
            *self = work;
        }
        r
    }

    /// The steps of a play, on a copy of the match.
    fn play(&mut self, player_id: String, serves: Vec<Card>) -> (r: Result<(), GameError>)
        ensures
            match old(self)@.serve(player_id@, serves@) {
                Ok(s) => r is Ok && final(self)@ == s,
                Err(e) => r == Err::<(), GameError>(e),
            },
    {
        if serves.len() == 0 {
            return Err(GameError::EmptySelection);
        }
        match refusal(self, &serves) {
            Some(e) => {
                return Err(e);
            },
            None => {},
        }
        let mut rest: Vec<Card> = match self.fields.get(player_id.as_str()) {
            Some(hand) => copy_cards(hand.0.as_slice()),
            None => {
                return Err(GameError::FieldNotFound);
            },
        };
        let _ = remove_items(&mut rest, serves.as_slice());
        self.fields.insert(player_id.clone(), Deck(rest));
        let _ = effect_card(self, player_id.as_str(), &serves);
        let holder: Option<String> = if self.pile(player_id.as_str()).len() == 0 {
            self.get_relative_player(player_id.as_str(), 1)
        } else {
            self.get_relative_player(player_id.as_str(), 0)
        };
        match holder {
            Some(_) => {},
            None => {
                return Err(GameError::MatchEnded);
            },
        }
        self.last_served_player_id = holder;
        Ok(())
    }

    /// The player plays the cards, or nothing changes where the play is
    /// refused.
    pub fn serve(&mut self, player_id: String, serves: Vec<Card>) -> (r: Result<(), GameError>)
        ensures
            result_of(old(self)@, final(self)@, r, old(self)@.serve(player_id@, serves@)),
    {
        let mut work = self.clone();
        let r = work.play(player_id, serves);
        if r.is_ok() {
            *self = work;
        }
        r
    }

    /// Deals the cards, or changes nothing where nobody sits at the table.
    pub fn distribute(&mut self) -> (r: Result<(), GameError>)
        ensures
            result_of(old(self)@, final(self)@, r, old(self)@.distribute()),
    {
        let n: usize = self.players.len();
        if n == 0 {
            return Err(GameError::PlayersEmpty);
        }
        let mut i: usize = 0;
        while i < n
            invariant
                i <= n,
                n == self.players@.len(),
                self.fields@ == with_empty_hands(old(self)@.fields, self@.players.take(i as int)),
                self@ == (StateView { fields: self.fields@, ..old(self)@ }),
            decreases n - i,
        {
            proof {
                let now = self@.players.take(i + 1);
                assert(now.drop_last() =~= self@.players.take(i as int));
                assert(now.last() == self.players@[i as int]@);
            }
            self.fields.insert(self.players[i].clone(), Deck(Vec::new()));
            i += 1;
        }
        assert(self@.players.take(n as int) =~= self@.players);
        let ghost cleared = self.fields@;
        let cards: Deck = Deck::all(2);
        let mut c: usize = 0;
        while c < cards.0.len()
            invariant
                c <= cards.0.len(),
                n > 0,
                n == self.players@.len(),
                self.fields@ == dealt_to(cleared, self@.players, cards@.take(c as int)),
                self@ == (StateView { fields: self.fields@, ..old(self)@ }),
            decreases cards.0.len() - c,
        {
            proof {
                let now = cards@.take(c + 1);
                assert(now.drop_last() =~= cards@.take(c as int));
                assert(now.last() == cards@[c as int]);
                assert(self@.players[(c % n) as int] == self.players@[(c % n) as int]@);
            }
            let name: String = self.players[c % n].clone();
            if self.fields.contains_key(name.as_str()) {
                let mut hand: Vec<Card> = self.pile(name.as_str());
                hand.push(cards.0[c]);
                self.fields.insert(name, Deck(hand));
            }
            c += 1;
        }
        assert(cards@.take(cards@.len() as int) =~= cards@);
        let ghost given = self.fields@;
        let mut j: usize = 0;
        while j < n
            invariant
                j <= n,
                n > 0,
                n == self.players@.len(),
                self.fields@ == with_sorted_hands(given, self@.players.take(j as int)),
                self@ == (StateView { fields: self.fields@, ..old(self)@ }),
            decreases n - j,
        {
            proof {
                let now = self@.players.take(j + 1);
                assert(now.drop_last() =~= self@.players.take(j as int));
                assert(now.last() == self.players@[j as int]@);
            }
            let name: String = self.players[j].clone();
            if self.fields.contains_key(name.as_str()) {
                let mut hand: Deck = Deck(self.pile(name.as_str()));
                hand.arrange();
                self.fields.insert(name, hand);
            }
            j += 1;
        }
        assert(self@.players.take(n as int) =~= self@.players);
        self.current = Some(self.players[0].clone());
        Ok(())
    }

    /// Applies the action, where `chance` says whether a contest takes
    /// effect; nothing changes where the action is refused.
    pub fn action_with(&mut self, action: Action, chance: bool) -> (r: Result<(), GameError>)
        ensures
            result_of(old(self)@, final(self)@, r, old(self)@.action(action@, chance)),
    {
        match action {
            Action::Distribute => self.distribute(),
            Action::Pass { player_id } => self.pass(player_id),
            Action::Flush { to } => self.flush(to),
            Action::OneChance { player_id, serves } => self.one_chance(player_id, serves, chance),
            Action::Select { from, player_id, serves } => {
                let trushes: String = String::from_str("trushes");
                let excluded: String = String::from_str("excluded");
                if from == trushes {
                    self.select_trushes(player_id, serves)
                } else if from == excluded {
                    self.select_excluded(player_id, serves)
                } else {
                    Err(GameError::FieldNotFound)
                }
            },
            Action::ServeAnother { player_id, serves } => self.select_passes(player_id, serves),
            Action::Serve { player_id, serves } => self.serve(player_id, serves),
        }
    }

    /// The number of piles that hold cards.
    pub fn holding(&self) -> (n: usize)
        ensures
            n == holding_in(self.fields.entries@),
    {
        let mut n: usize = 0;
        let mut i: usize = 0;
        while i < self.fields.entries.len()
            invariant
                i <= self.fields.entries.len(),
                n <= i,
                n == holding_in(self.fields.entries@.take(i as int)),
            decreases self.fields.entries.len() - i,
        {
            proof {
                let now = self.fields.entries@.take(i + 1);
                assert(now.drop_last() =~= self.fields.entries@.take(i as int));
                assert(now.last() == self.fields.entries@[i as int]);
            }
            if self.fields.entries[i].1.0.len() > 0 {
                n += 1;
            }
            i += 1;
        }
        assert(self.fields.entries@.take(self.fields.entries@.len() as int)
            =~= self.fields.entries@);
        n
    }

    /// Applies the action. Whether a contest takes effect is drawn by chance:
    /// at one draw in as many as there are piles that hold cards.
    pub fn action(&mut self, action: Action) -> (r: Result<(), GameError>)
        ensures
            exists|draw: u32|
                result_of(
                    old(self)@,
                    final(self)@,
                    r,
                    old(self)@.action(
                        action@,
                        chance_of(draw, holding_in(old(self).fields.entries@) as int),
                    ),
                ),
    {
        let draw: u32 = rand();
        let piles: usize = self.holding();
        let chance: bool = takes_effect(draw, piles);
        let ghost before = *self;
        let r = self.action_with(action, chance);
        assert(result_of(
            before@,
            self@,
            r,
            before@.action(action@, chance_of(draw, holding_in(before.fields.entries@) as int)),
        ));
        r
    }

    /// A player joins the table, unless the player sits there already.
    pub fn join(&mut self, player_id: String)
        ensures
            final(self)@ == (StateView {
                players: if old(self)@.players.contains(player_id@) {
                    old(self)@.players
                } else {
                    old(self)@.players.push(player_id@)
                },
                ..old(self)@
            }),
    {
        match self.seat_of(player_id.as_str()) {
            Some(_) => {},
            None => {
                self.players.push(player_id);
                assert(self@.players =~= old(self)@.players.push(player_id@));
            },
        }
    }

    /// A player leaves the table and takes the hand along; nothing happens
    /// where the player does not sit there.
    pub fn leave(&mut self, player_id: String)
        ensures
            final(self)@ == (match old(self)@.seat_of(player_id@) {
                Some(i) => StateView {
                    players: old(self)@.players.remove(i),
                    fields: old(self)@.fields.remove(player_id@),
                    ..old(self)@
                },
                None => old(self)@,
            }),
    {
        match self.seat_of(player_id.as_str()) {
            Some(i) => {
                self.players.remove(i);
                self.fields.remove(player_id.as_str());
                assert(self@.players =~= old(self)@.players.remove(i as int));
            },
            None => {},
        }
    }

    /// The first player with cards from `d` seats after the player on, where
    /// there is one within a round of the table.
    pub fn get_relative_player(&self, player_id: &str, d: i32) -> (r: Option<String>)
        ensures
            maybe_text(r) == self@.relative_player(player_id@, d as int),
    {
        self.relative_from(player_id, d as i128)
    }

    /// The same for a number of seats of any size.
    pub fn relative_from(&self, player_id: &str, d: i128) -> (r: Option<String>)
        requires
            -0x1_0000_0000_0000_0000 <= d <= 0x1_0000_0000_0000_0000,
        ensures
            maybe_text(r) == self@.relative_player(player_id@, d as int),
    {
        let from: usize = match self.seat_of(player_id) {
            Some(from) => from,
            None => {
                return None;
            },
        };
        let len: usize = self.players.len();
        let wide: i128 = d;
        let mut seat: usize = if wide >= 0 {
            proof {
                vstd::arithmetic::div_mod::lemma_add_mod_noop_right(
                    from as int,
                    wide as int,
                    len as int,
                );
            }
            wrap_add(from, (wide % (len as i128)) as usize, len)
        } else {
            proof {
                vstd::arithmetic::div_mod::lemma_sub_mod_noop_right(
                    from as int,
                    -wide as int,
                    len as int,
                );
            }
            wrap_sub(from, ((-wide) % (len as i128)) as usize, len)
        };
        let last: i128 = if wide <= len as i128 {
            len as i128
        } else {
            wide + (len as i128) - 1
        };
        let mut delta: i128 = wide;
        while delta <= last
            invariant
                from < len,
                len == self.players@.len(),
                self@.seat_of(player_id@) == Some(from as int),
                wide == d,
                wide <= delta <= last + 1,
                last <= 0x4_0000_0000_0000_0000,
                last == self@.seek_end(d as int),
                seat < len,
                seat == self@.seat_after(from as int, delta as int),
                self@.seek(from as int, d as int, last as int) == self@.seek(
                    from as int,
                    delta as int,
                    last as int,
                ),
            decreases last - delta + 1,
        {
            assert(self@.players[seat as int] == self.players@[seat as int]@);
            match self.fields.get(self.players[seat].as_str()) {
                Some(hand) => {
                    if hand.0.len() > 0 {
                        let found: String = self.players[seat].clone();
                        proof {
                            let name = self@.players[seat as int];
                            assert(self@.pile(name) == hand@);
                            assert(self@.seek(from as int, delta as int, last as int) == Some(
                                name,
                            ));
                            assert(found@ == name);
                        }
                        return Some(found);
                    }
                },
                None => {},
            }
            proof {
                vstd::arithmetic::div_mod::lemma_add_mod_noop(
                    from + delta,
                    1,
                    len as int,
                );
                if len == 1 {
                    vstd::arithmetic::div_mod::lemma_mod_self_0(1);
                } else {
                    vstd::arithmetic::div_mod::lemma_small_mod(1, len as nat);
                }
                vstd::arithmetic::div_mod::lemma_mod_twice(from + delta, len as int);
            }
            seat = wrap_add(seat, 1 % len, len);
            delta = delta + 1;
        }
        None
    }
}

} // verus!
