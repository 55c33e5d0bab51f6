//! Choosing cards for the next action.

use crate::card::Card;
use crate::deck::{position, without, lemma_first_at_unique};
use crate::error::GameError;
use crate::game::{Game, GameView};
use vstd::prelude::*;

verus! {

impl GameView {
    /// The player picks the card, or puts it back where it was picked
    /// already. Only a player without a seat is refused.
    pub open spec fn select(self, player: Seq<char>, card: Card) -> Result<GameView, GameError> {
        match self.seat_of(player) {
            None => Err(GameError::FieldNotFound),
            Some(seat) => Ok(
                GameView {
                    selects: self.selects.update(
                        seat,
                        if self.selects[seat].contains(card) {
                            without(self.selects[seat], card)
                        } else {
                            self.selects[seat].push(card)
                        },
                    ),
                    ..self
                },
            ),
        }
    }
}

/// The operation of picking a card, or of putting it back.
#[derive(Debug)]
pub struct Select {
    pub field: String,
    pub card: Card,
}

impl Select {
    /// Picks the card for the player, or puts it back.
    pub fn on(&self, player_id: String, game: &mut Game) -> (r: Result<(), GameError>)
        requires
            old(game).wf(),
        ensures
            final(game).wf(),
            match old(game)@.select(player_id@, self.card) {
                Ok(g) => r is Ok && final(game)@ == g,
                Err(e) => r == Err::<(), GameError>(e) && final(game)@ == old(game)@,
            },
    {
        let seat: usize = match game.seat_of(player_id.as_str()) {
            Some(seat) => seat,
            None => {
                return Err(GameError::FieldNotFound);
            },
        };
        assert(game@.selects.len() == game@.players.len());
        let mut chosen: Vec<Card> = crate::deck::copy_cards(game.selects[seat].as_slice());
        match position(chosen.as_slice(), &self.card) {
            Some(at) => {
                proof {
                    lemma_first_at_unique(chosen@, self.card, at as int);
                }
                chosen.remove(at);
            },
            None => {
                chosen.push(self.card);
            },
        }
        game.selects.set(seat, chosen);
        assert(game@.selects =~= old(game)@.selects.update(seat as int, chosen@));
        Ok(())
    }
}

} // verus!
