//! Playing the chosen cards, and whether a play is allowed.

use crate::card::{
    cardinal, cardinal_of, is_same_number, match_suits, number, number_of, ranked_at, same_number,
    suits_match, Card, Suit,
};
use crate::deck::{beats, beats_top, copy_cards, holds_all, remove_items, without_all, Deck};
use crate::error::GameError;
use crate::events::effect_card::EffectCard;
use crate::game::{texts, Game, GameView, Prompt, PromptKind, PromptView};
use vstd::prelude::*;

verus! {

broadcast use vstd::std_specs::hash::group_hash_axioms;

/// The size that a play has after a nine: one card for three and three for
/// one.
pub open spec fn toggled(n: usize) -> usize {
    if n == 1 {
        3
    } else if n == 3 {
        1
    } else {
        n
    }
}

impl GameView {
    /// Whether the order of strength is reversed for the next play.
    pub open spec fn reversed(self) -> bool {
        self.effect.revoluted != self.effect.turn_revoluted
    }

    /// The number of cards that the play must have: that of the chain, turned
    /// from one to three or back where the play is of nines and their rule is
    /// in force.
    pub open spec fn expected_size(self, play: Seq<Card>) -> Option<usize> {
        match self.effect.river_size {
            None => None,
            Some(n) => if number_of(play) == 9 && self.effect.active(9) {
                Some(toggled(n))
            } else {
                Some(n)
            },
        }
    }

    /// Whether the play is allowed now, and if not, why not.
    pub open spec fn servable(self, play: Seq<Card>) -> Result<(), GameError> {
        if !same_number(play) {
            Err(GameError::NotSameNumber)
        } else if self.river.len() == 0 {
            Ok(())
        } else if !beats_top(play, self.river.last(), self.reversed()) {
            Err(GameError::MustBeatTop)
        } else if !(self.expected_size(play) matches Some(n) && n == play.len()) {
            Err(GameError::SizeMismatch)
        } else if self.effect.is_step && cardinal_of(number_of(play)) - cardinal_of(
            number_of(self.river.last()),
        ) != 1 {
            Err(GameError::MustStep)
        } else if self.effect.suit_limits != Set::<Suit>::empty() && !suits_match(
            self.river.last(),
            play,
        ) {
            Err(GameError::SuitMismatch)
        } else {
            Ok(())
        }
    }
}

/// Whether the hand holds a card that counts as an ace.
pub open spec fn holds_ace(hand: Seq<Card>) -> bool {
    exists|i: int| ranked_at(hand, i, 1u8)
}

/// The players but `but` whose hands hold an ace, in seating order.
pub open spec fn ace_holders_among(
    players: Seq<Seq<char>>,
    hands: Seq<Seq<Card>>,
    but: Seq<char>,
) -> Seq<Seq<char>>
    decreases hands.len(),
{
    if hands.len() == 0 {
        Seq::empty()
    } else if players[hands.len() - 1] != but && holds_ace(hands.last()) {
        ace_holders_among(players, hands.drop_last(), but).push(players[hands.len() - 1])
    } else {
        ace_holders_among(players, hands.drop_last(), but)
    }
}

impl PromptView {
    /// The question to the holders of an ace whether they contest a play.
    pub open spec fn one_chance(holders: Seq<Seq<char>>) -> PromptView {
        PromptView {
            kind: PromptKind::UseOneChance,
            player_ids: holders,
            question: "select A if use one chance"@,
            options: seq!["serve"@, "skip"@],
        }
    }
}

impl GameView {
    /// The other players who could contest a play of `player` with an ace.
    pub open spec fn ace_holders(self, player: Seq<char>) -> Seq<Seq<char>> {
        ace_holders_among(self.players, self.hands, player)
    }

    /// The cards leave the hand at `seat` for the river, and nothing stays
    /// chosen at that seat.
    pub open spec fn played(self, seat: int, play: Seq<Card>) -> GameView {
        GameView {
            hands: self.hands.update(seat, without_all(self.hands[seat], play)),
            river: self.river.push(play),
            selects: self.selects.update(seat, Seq::empty()),
            ..self
        }
    }

    /// Whether a play of `player` is open to contest: the rule of the ace is
    /// in force and another player holds an ace.
    pub open spec fn contestable(self, player: Seq<char>) -> bool {
        self.effect.active(1) && self.ace_holders(player).len() > 0
    }

    /// Asks the other holders of an ace whether they contest the play of
    /// `player`, where it is open to contest.
    pub open spec fn contested(self, player: Seq<char>) -> GameView {
        if self.contestable(player) {
            self.with_prompt(PromptView::one_chance(self.ace_holders(player)))
        } else {
            self
        }
    }

    /// Completes a play of `player` that lies on the river: the rule of its
    /// rank applies, the player becomes the one who played last, and the turn
    /// ends.
    pub open spec fn settle(self, player: Seq<char>, play: Seq<Card>) -> Result<
        GameView,
        GameError,
    > {
        match self.resolve(player, play) {
            Err(e) => Err(e),
            Ok(g) => (GameView { last_served_player_id: Some(player), ..g }).end_turn(),
        }
    }

    /// The player plays the cards chosen. A player who owes an answer, has no
    /// seat, is not on turn, has chosen nothing, chose cards that the rules
    /// refuse or that the hand lacks, is refused. A play that is open to
    /// contest waits on the river for the answers of the holders of an ace;
    /// another is completed at once.
    pub open spec fn serve(self, player: Seq<char>) -> Result<GameView, GameError> {
        if self.pending_for(player) {
            Err(GameError::PendingAnswerRequired)
        } else {
            match self.seat_of(player) {
                None => Err(GameError::FieldNotFound),
                Some(seat) => {
                    let play = self.selects[seat];
                    if self.current != Some(player) {
                        Err(GameError::NotYourTurn)
                    } else if play.len() == 0 {
                        Err(GameError::EmptySelection)
                    } else if self.servable(play) is Err {
                        Err(self.servable(play)->Err_0)
                    } else if !holds_all(self.hands[seat], play) {
                        Err(GameError::NotFound)
                    } else {
                        let played = self.played(seat, play);
                        if played.contestable(player) {
                            Ok(played.contested(player))
                        } else {
                            played.settle(player, play)
                        }
                    }
                },
            }
        }
    }
}

/// Whether the hand holds a card that counts as an ace.
pub fn has_ace(hand: &[Card]) -> (r: bool)
    ensures
        r == holds_ace(hand@),
{
    let mut i: usize = 0;
    while i < hand.len()
        invariant
            i <= hand.len(),
            forall|k: int| 0 <= k < i ==> !ranked_at(hand@, k, 1u8),
        decreases hand.len() - i,
    {
        match hand[i].number() {
            Some(n) => {
                if n == 1 {
                    assert(ranked_at(hand@, i as int, 1u8));
                    return true;
                }
            },
            None => {},
        }
        i += 1;
    }
    false
}

/// The other players who could contest a play of the player with an ace.
fn ace_holders(game: &Game, player_id: &String) -> (r: Vec<String>)
    requires
        game.wf(),
    ensures
        texts(r@) == game@.ace_holders(player_id@),
{
    let mut r: Vec<String> = Vec::new();
    let mut i: usize = 0;
    assert(game@.hands.len() == game@.players.len());
    while i < game.hands.len()
        invariant
            i <= game.hands.len(),
            game.hands@.len() == game.players@.len(),
            texts(r@) == ace_holders_among(
                game@.players,
                game@.hands.take(i as int),
                player_id@,
            ),
        decreases game.hands.len() - i,
    {
        proof {
            let now = game@.hands.take(i + 1);
            assert(now.drop_last() =~= game@.hands.take(i as int));
            assert(now.last() == game@.hands[i as int]);
            assert(game@.players[i as int] == game.players@[i as int]@);
        }
        let ghost before = texts(r@);
        if game.players[i] != *player_id && has_ace(game.hands[i].0.as_slice()) {
            r.push(game.players[i].clone());
            assert(texts(r@) =~= before.push(game@.players[i as int]));
        }
        i += 1;
    }
    assert(game@.hands.take(game@.hands.len() as int) =~= game@.hands);
    r
}

/// Moves the play from the hand at the seat to the river.
fn play_cards(game: &mut Game, seat: usize, play: &Vec<Card>) -> (r: Result<(), GameError>)
    requires
        old(game).wf(),
        seat < old(game).hands@.len(),
    ensures
        holds_all(old(game)@.hands[seat as int], play@) ==> r is Ok && final(game)@ == old(
            game,
        )@.played(seat as int, play@),
        !holds_all(old(game)@.hands[seat as int], play@) ==> r == Err::<(), GameError>(
            GameError::NotFound,
        ),
{
    let mut hand: Vec<Card> = copy_cards(game.hands[seat].0.as_slice());
    match remove_items(&mut hand, play.as_slice()) {
        Ok(()) => {},
        Err(e) => {
            return Err(e);
        },
    }
    game.hands.set(seat, Deck(hand));
    game.river.push(copy_cards(play.as_slice()));
    game.selects.set(seat, Vec::new());
    proof {
        let g = old(game)@.played(seat as int, play@);
        assert(game@.hands =~= g.hands);
        assert(game@.river =~= g.river);
        assert(game@.selects =~= g.selects);
    }
    Ok(())
}

/// Opens the question to the holders of an ace, where the play is open to
/// contest, and says whether it is.
fn contest(game: &mut Game, player_id: &String) -> (r: bool)
    requires
        old(game).wf(),
    ensures
        r == old(game)@.contestable(player_id@),
        final(game)@ == old(game)@.contested(player_id@),
        final(game).wf(),
{
    let holders = ace_holders(game, player_id);
    if !game.effect.effect_limits.contains(&1) && holders.len() > 0 {
        let mut options: Vec<String> = Vec::new();
        options.push(String::from_str("serve"));
        options.push(String::from_str("skip"));
        let p = Prompt {
            kind: PromptKind::UseOneChance,
            player_ids: holders,
            question: String::from_str("select A if use one chance"),
            options,
        };
        assert(p@.options =~= seq!["serve"@, "skip"@]);
        game.prompt.push(p);
        assert(game@.prompt =~= old(game)@.prompt.push(p@));
        true
    } else {
        false
    }
}

/// Completes a play of the player that lies on the river.
pub fn settle(game: &mut Game, player_id: &String, play: Vec<Card>) -> (r: Result<
    (),
    GameError,
>)
    requires
        old(game).wf(),
    ensures
        match old(game)@.settle(player_id@, play@) {
            Ok(g) => r is Ok && final(game)@ == g && final(game).wf(),
            Err(e) => r == Err::<(), GameError>(e),
        },
{
    let rule = EffectCard { serves: play };
    match rule.on(player_id.clone(), game) {
        Ok(()) => {},
        Err(e) => {
            return Err(e);
        },
    }
    game.last_served_player_id = Some(player_id.clone());
    game.on_end_turn()
}

/// The steps of a play on a copy of the match.
fn serve_on(player_id: &String, game: &mut Game) -> (r: Result<(), GameError>)
    requires
        old(game).wf(),
    ensures
        match old(game)@.serve(player_id@) {
            Ok(g) => r is Ok && final(game)@ == g && final(game).wf(),
            Err(e) => r == Err::<(), GameError>(e),
        },
{
    if game.pending_for(player_id.as_str()) {
        return Err(GameError::PendingAnswerRequired);
    }
    let seat: usize = match game.seat_of(player_id.as_str()) {
        Some(seat) => seat,
        None => {
            return Err(GameError::FieldNotFound);
        },
    };
    assert(game@.selects.len() == game@.players.len());
    assert(game@.hands.len() == game@.players.len());
    let play: Vec<Card> = copy_cards(game.selects[seat].as_slice());
    if !game.is_current(player_id.as_str()) {
        return Err(GameError::NotYourTurn);
    }
    if play.len() == 0 {
        return Err(GameError::EmptySelection);
    }
    let validate = ValidateServe { serves: copy_cards(play.as_slice()) };
    match validate.on(player_id.clone(), game) {
        Ok(()) => {},
        Err(e) => {
            return Err(e);
        },
    }
    match play_cards(game, seat, &play) {
        Ok(()) => {},
        Err(e) => {
            return Err(e);
        },
    }
    if contest(game, player_id) {
        Ok(())
    } else {
        settle(game, player_id, play)
    }
}

/// The operation of playing the chosen cards.
#[derive(Debug)]
pub struct Serve;

impl Serve {
    /// Plays the cards that the player has chosen, or changes nothing where
    /// the play is refused.
    pub fn on(&self, player_id: String, game: &mut Game) -> (r: Result<(), GameError>)
        requires
            old(game).wf(),
        ensures
            final(game).wf(),
            match old(game)@.serve(player_id@) {
                Ok(g) => r is Ok && final(game)@ == g,
                Err(e) => r == Err::<(), GameError>(e) && final(game)@ == old(game)@,
            },
    {
        let mut work: Game = game.clone();
        let r = serve_on(&player_id, &mut work);
        if r.is_ok() {
            *game = work;
        }
        r
    }
}

/// The validation of a play against the rules in force.
#[derive(Debug)]
pub struct ValidateServe {
    pub serves: Vec<Card>,
}

impl ValidateServe {
    /// Says whether the play is allowed now; the match stays as it is.
    pub fn on(&self, _player_id: String, game: &mut Game) -> (r: Result<(), GameError>)
        ensures
            r == old(game)@.servable(self.serves@),
            *final(game) == *old(game),
    {
        let play = self.serves.as_slice();
        if !is_same_number(play) {
            return Err(GameError::NotSameNumber);
        }
        if game.river.len() == 0 {
            return Ok(());
        }
        let top = game.river[game.river.len() - 1].as_slice();
        let reversed: bool = game.effect.revoluted != game.effect.turn_revoluted;
        if !beats(play, top, reversed) {
            return Err(GameError::MustBeatTop);
        }
        let n: u8 = number(play);
        let expected: usize = match game.effect.river_size {
            None => {
                return Err(GameError::SizeMismatch);
            },
            Some(size) => if n == 9 && !game.effect.effect_limits.contains(&9) {
                if size == 1 {
                    3
                } else if size == 3 {
                    1
                } else {
                    size
                }
            } else {
                size
            },
        };
        if play.len() != expected {
            return Err(GameError::SizeMismatch);
        }
        if game.effect.is_step && cardinal(n) - cardinal(number(top)) != 1 {
            return Err(GameError::MustStep);
        }
        if !game.effect.suit_limits.is_empty() && !match_suits(top, play) {
            return Err(GameError::SuitMismatch);
        }
        Ok(())
    }
}

/// The first play of a chain may be any cards of one rank.
pub proof fn lemma_first_play_is_free(g: GameView, play: Seq<Card>)
    requires
        g.river.len() == 0,
        same_number(play),
    ensures
        g.servable(play) == Ok::<(), GameError>(()),
{
}

} // verus!
