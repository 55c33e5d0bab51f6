//! Why an operation on the game is refused.

use vstd::prelude::*;

verus! {

/// The reasons for which the engine refuses an operation. A refused operation
/// leaves the game as it was.
#[derive(Debug, Clone, Copy, PartialEq, Eq, Structural)]
pub enum GameError {
    /// Cards are dealt to no player.
    PlayersEmpty,
    /// The player acts out of turn.
    NotYourTurn,
    /// A pass while no play lies on the river.
    RiverEmpty,
    /// A play of no cards.
    EmptySelection,
    /// The cards of a play are of more than one rank.
    NotSameNumber,
    /// The play does not beat the play on top of the river.
    MustBeatTop,
    /// The play has the wrong number of cards.
    SizeMismatch,
    /// The play is not one step above the play on top of the river.
    MustStep,
    /// The play lacks a suit that the play on top of the river shows.
    SuitMismatch,
    /// A pile that the game does not hold.
    FieldNotFound,
    /// A card that the pile does not hold.
    NotFound,
    /// The player has a question to answer first.
    PendingAnswerRequired,
    /// The answer is none of the question's options, or comes with the wrong
    /// number of chosen cards.
    InvalidAnswer,
    /// The rank of a play is none of 1 to 13.
    InvalidRank,
    /// The match is over: no other player holds cards.
    MatchEnded,
}

} // verus!
