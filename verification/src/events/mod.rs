//! The operations of the players: dealing, choosing cards, playing, passing
//! and answering a question. Nothing else changes a match.

use crate::card::{parse_card, Card, ParseError};
use crate::error::GameError;
use crate::events::answer::{drawn, outcome_of, Answer};
use crate::events::distribute::Distribute;
use crate::events::pass::Pass;
use crate::events::select::Select;
use crate::events::serve::Serve;
use crate::game::{Game, GameView};
use vstd::prelude::*;

pub mod answer;
pub mod distribute;
pub mod effect_card;
pub mod pass;
pub mod select;
pub mod serve;

verus! {

/// A value of JSON, as the crate serde_json holds it. The engine carries such
/// a value along and never looks inside.
#[verifier::external_type_specification]
#[verifier::external_body]
pub struct ExValue(serde_json::Value);

/// What a player or the host sends to a match, and what a match sends back.
#[derive(Debug)]
pub enum Event {
    Distribute,
    Select { field: String, card: String },
    Answer { option: String },
    Serve,
    Pass,
    /// Nothing to say.
    Nothing,
    Exit,
    LaunchPlugin { plugin_name: String },
    PluginStarted { state_id: String },
    PluginFinished { state_id: String, value: serde_json::Value },
}

/// Why an event is refused.
#[derive(Debug, Clone, Copy, PartialEq, Eq, Structural)]
pub enum EventError {
    /// The event names a card by a text that names none.
    Card(ParseError),
    /// The match refuses the operation.
    Game(GameError),
}

/// Whether the state after an event and its result are what `model` says: the
/// new state and nothing to say where the operation succeeds, else its error
/// and the state as it was.
pub open spec fn handled_as(
    before: GameView,
    after: GameView,
    r: Result<Event, EventError>,
    model: Result<GameView, GameError>,
) -> bool {
    match model {
        Ok(g) => r matches Ok(Event::Nothing) && after == g,
        Err(e) => r matches Err(EventError::Game(x)) && x == e && after == before,
    }
}

/// Whether the state after an event and its result are what the event asks
/// for, where `chance` says whether a contest takes effect. An event that is
/// no operation of a player changes nothing.
pub open spec fn handled(
    before: GameView,
    after: GameView,
    r: Result<Event, EventError>,
    player: Seq<char>,
    event: Event,
    chance: bool,
) -> bool {
    match event {
        Event::Distribute => if before.players.len() == 0 {
            handled_as(before, after, r, Err(GameError::PlayersEmpty))
        } else {
            r matches Ok(Event::Nothing) && before.distributed(after)
        },
        Event::Select { field, card } => match parse_card(card@) {
            Ok(c) => handled_as(before, after, r, before.select(player, c)),
            Err(e) => r matches Err(EventError::Card(x)) && x == e && after == before,
        },
        Event::Answer { option } => handled_as(
            before,
            after,
            r,
            before.answer(player, option@, chance),
        ),
        Event::Serve => handled_as(before, after, r, before.serve(player)),
        Event::Pass => handled_as(before, after, r, before.pass(player)),
        _ => r matches Ok(Event::Nothing) && after == before,
    }
}

/// The operation that an event asks for.
#[derive(Debug)]
pub enum Handler {
    Distribute(Distribute),
    Select(Select),
    Answer(Answer),
    Serve(Serve),
    Pass(Pass),
}

/// Whether the handler is the operation that the event asks for.
pub open spec fn handles(h: Handler, event: Event) -> bool {
    match event {
        Event::Distribute => h is Distribute,
        Event::Select { field, card } => h matches Handler::Select(s) && s.field@ == field@
            && parse_card(card@) == Ok::<Card, ParseError>(s.card),
        Event::Answer { option } => h matches Handler::Answer(a) && a.answer@ == option@,
        Event::Serve => h is Serve,
        Event::Pass => h is Pass,
        _ => false,
    }
}

/// Whether the event asks for an operation of a player.
pub open spec fn is_operation(event: Event) -> bool {
    event is Distribute || event is Select || event is Answer || event is Serve || event is Pass
}

/// The operation that the event asks for, if it asks for one. An event that
/// names a card by a text that names none is refused.
pub fn into_event_handler(event: &Event) -> (r: Result<Option<Handler>, ParseError>)
    ensures
        match r {
            Ok(Some(h)) => handles(h, *event),
            Ok(None) => !is_operation(*event),
            Err(e) => event matches Event::Select { field, card } && parse_card(card@) == Err::<
                Card,
                ParseError,
            >(e),
        },
{
    match event {
        Event::Distribute => Ok(Some(Handler::Distribute(Distribute))),
        Event::Select { field, card } => {
            match Card::try_from(card.as_str()) {
                Ok(c) => Ok(Some(Handler::Select(Select { field: field.clone(), card: c }))),
                Err(e) => Err(e),
            }
        },
        Event::Answer { option } => Ok(Some(Handler::Answer(Answer { answer: option.clone() }))),
        Event::Serve => Ok(Some(Handler::Serve(Serve))),
        Event::Pass => Ok(Some(Handler::Pass(Pass))),
        _ => Ok(None),
    }
}

impl Handler {
    /// Applies the operation to the match for the player, where `chance`
    /// says whether a contest takes effect.
    pub fn on_chance(&self, player_id: String, game: &mut Game, chance: bool) -> (r: Result<
        (),
        GameError,
    >)
        requires
            old(game).wf(),
        ensures
            final(game).wf(),
            match *self {
                Handler::Distribute(_) => if old(game)@.players.len() == 0 {
                    r == Err::<(), GameError>(GameError::PlayersEmpty) && final(game)@ == old(
                        game,
                    )@
                } else {
                    r is Ok && old(game)@.distributed(final(game)@)
                },
                Handler::Select(s) => outcome_of(
                    old(game)@,
                    final(game)@,
                    r,
                    old(game)@.select(player_id@, s.card),
                ),
                Handler::Answer(a) => outcome_of(
                    old(game)@,
                    final(game)@,
                    r,
                    old(game)@.answer(player_id@, a.answer@, chance),
                ),
                Handler::Serve(_) => outcome_of(
                    old(game)@,
                    final(game)@,
                    r,
                    old(game)@.serve(player_id@),
                ),
                Handler::Pass(_) => outcome_of(
                    old(game)@,
                    final(game)@,
                    r,
                    old(game)@.pass(player_id@),
                ),
            },
    {
        match self {
            Handler::Distribute(d) => d.on(player_id, game),
            Handler::Select(s) => s.on(player_id, game),
            Handler::Answer(a) => a.on_chance(player_id, game, chance),
            Handler::Serve(s) => s.on(player_id, game),
            Handler::Pass(p) => p.on(player_id, game),
        }
    }
}

/// The answer to an event after the operation it asked for.
fn reply(r: Result<(), GameError>) -> (e: Result<Event, EventError>)
    ensures
        match r {
            Ok(()) => e matches Ok(Event::Nothing),
            Err(x) => e matches Err(EventError::Game(y)) && y == x,
        },
{
    match r {
        Ok(()) => Ok(Event::Nothing),
        Err(x) => Err(EventError::Game(x)),
    }
}

/// Applies the operation that the event asks for to the match, where `chance`
/// says whether a contest takes effect.
pub fn handle_event_with(player_id: String, event: &Event, game: &mut Game, chance: bool) -> (r:
    Result<Event, EventError>)
    requires
        old(game).wf(),
    ensures
        final(game).wf(),
        handled(old(game)@, final(game)@, r, player_id@, *event, chance),
{
    match into_event_handler(event) {
        Ok(Some(handler)) => reply(handler.on_chance(player_id, game, chance)),
        Ok(None) => Ok(Event::Nothing),
        Err(e) => Err(EventError::Card(e)),
    }
}

/// Applies the operation that the event asks for to the match. Whether a
/// contest takes effect is drawn by chance.
pub fn handle_event(player_id: String, event: &Event, game: &mut Game) -> (r: Result<
    Event,
    EventError,
>)
    requires
        old(game).wf(),
    ensures
        final(game).wf(),
        exists|chance: bool|
            drawn(old(game)@, chance) && handled(
                old(game)@,
                final(game)@,
                r,
                player_id@,
                *event,
                chance,
            ),
{
    let chance: bool = crate::events::answer::draw_chance(game);
    handle_event_with(player_id, event, game, chance)
}

} // verus!
