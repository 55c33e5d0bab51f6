//! Passing the turn.

use crate::error::GameError;
use crate::game::{Game, GameView};
use vstd::prelude::*;

verus! {

impl GameView {
    /// The player passes: the turn ends. A player who owes an answer, who is
    /// not on turn, or who would pass on an empty river is refused.
    pub open spec fn pass(self, player: Seq<char>) -> Result<GameView, GameError> {
        if self.pending_for(player) {
            Err(GameError::PendingAnswerRequired)
        } else if self.current != Some(player) {
            Err(GameError::NotYourTurn)
        } else if self.river.len() == 0 {
            Err(GameError::RiverEmpty)
        } else {
            self.end_turn()
        }
    }
}

/// The operation of passing.
#[derive(Debug)]
pub struct Pass;

impl Pass {
    /// Passes the turn of the player, or changes nothing where that is
    /// refused.
    pub fn on(&self, player_id: String, game: &mut Game) -> (r: Result<(), GameError>)
        requires
            old(game).wf(),
        ensures
            final(game).wf(),
            match old(game)@.pass(player_id@) {
                Ok(g) => r is Ok && final(game)@ == g,
                Err(e) => r == Err::<(), GameError>(e) && final(game)@ == old(game)@,
            },
    {
        if game.pending_for(player_id.as_str()) {
            return Err(GameError::PendingAnswerRequired);
        }
        if !game.is_current(player_id.as_str()) {
            return Err(GameError::NotYourTurn);
        }
        if game.river.len() == 0 {
            return Err(GameError::RiverEmpty);
        }
        game.on_end_turn()
    }
}

} // verus!
