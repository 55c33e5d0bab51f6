//! Answering the question in force, and what happens once all have answered.

use crate::card::{number, number_of, Card};
use crate::deck::{copy_cards, position, without, lemma_first_at_unique, Deck};
use crate::effect::{Effect, EffectView};
use crate::error::GameError;
use crate::events::serve::settle;
use crate::game::{
    active_in, holds_text, FieldKey, FieldKeyView, Game, GameView, PromptKind,
};
use crate::mock::rand;
use vstd::prelude::*;

verus! {

impl GameView {
    /// Whether the player at `seat` has chosen as many cards as the latest
    /// play has.
    pub open spec fn chose_as_many(self, seat: int) -> bool {
        self.river.len() > 0 && self.selects[seat].len() == self.river.last().len()
    }

    /// Whether the player at `seat` has chosen one card, an ace.
    pub open spec fn chose_an_ace(self, seat: int) -> bool {
        self.selects[seat].len() == 1 && number_of(self.selects[seat]) == 1
    }

    /// Whether the answer is one that the question in force takes from the
    /// player: there is a question, it is put to the player, the player has a
    /// seat and has not answered, the answer is one of the options, and the
    /// cards chosen fit: as many as the latest play has for a question that
    /// moves cards, one ace to contest a play.
    pub open spec fn answer_allowed(self, player: Seq<char>, token: Seq<char>) -> Result<
        int,
        GameError,
    > {
        if self.prompt.len() == 0 || !self.prompt[0].player_ids.contains(player) {
            Err(GameError::InvalidAnswer)
        } else {
            match self.seat_of(player) {
                None => Err(GameError::FieldNotFound),
                Some(seat) => if self.answers[seat] is Some || !self.prompt[0].options.contains(
                    token,
                ) {
                    Err(GameError::InvalidAnswer)
                } else if self.prompt[0].kind == PromptKind::UseOneChance {
                    if token == "serve"@ && !self.chose_an_ace(seat) {
                        Err(GameError::InvalidAnswer)
                    } else {
                        Ok(seat)
                    }
                } else if !self.chose_as_many(seat) {
                    Err(GameError::InvalidAnswer)
                } else {
                    Ok(seat)
                },
            }
        }
    }

    /// Whether the first `n` of those asked have answered.
    pub open spec fn answered_upto(self, n: int) -> bool {
        forall|i: int| 0 <= i < n ==> self.has_answered(#[trigger] self.prompt[0].player_ids[i])
    }

    /// Whether all those asked have answered the question in force.
    pub open spec fn all_answered(self) -> bool {
        self.prompt.len() > 0 && self.answered_upto(self.prompt[0].player_ids.len() as int)
    }

    /// The seat of the `i`-th of those asked, where that player contests the
    /// play: the answer is "serve", and the one card chosen is an ace of the
    /// player's hand.
    pub open spec fn contests(self, i: int) -> Option<int> {
        match self.seat_of(self.prompt[0].player_ids[i]) {
            None => None,
            Some(s) => if self.contests_at(s) {
                Some(s)
            } else {
                None
            },
        }
    }

    /// Whether the player at seat `s` has answered "serve" and chosen one
    /// card, an ace of the hand.
    pub open spec fn contests_at(self, s: int) -> bool {
        self.answers[s] == Some("serve"@) && self.chose_an_ace(s) && self.hands[s].contains(
            self.selects[s][0],
        )
    }

    /// The seat of the first player from the `i`-th of those asked on who
    /// contests the play.
    pub open spec fn contester_from(self, i: int) -> Option<int>
        decreases self.prompt[0].player_ids.len() - i,
    {
        if i < 0 || i >= self.prompt[0].player_ids.len() {
            None
        } else if self.contests(i) is Some {
            self.contests(i)
        } else {
            self.contester_from(i + 1)
        }
    }

    /// The match without the question in force and without answers.
    pub open spec fn dequeued(self) -> GameView {
        GameView {
            prompt: self.prompt.drop_first(),
            answers: Seq::new(self.answers.len(), |i: int| None),
            ..self
        }
    }

    /// The match with nothing chosen at the seat.
    pub open spec fn unselected(self, seat: int) -> GameView {
        GameView { selects: self.selects.update(seat, Seq::empty()), ..self }
    }

    /// The player takes the chosen cards from the discard pile.
    pub open spec fn answer_select4(self, player: Seq<char>) -> Result<GameView, GameError> {
        match self.seat_of(player) {
            None => Err(GameError::FieldNotFound),
            Some(seat) => self.take_cards(
                FieldKeyView::Trushes,
                FieldKeyView::Hands(player),
                self.selects[seat],
            ),
        }
    }

    /// The player hands the chosen cards to the player on the right: the one
    /// a step back round the table.
    pub open spec fn answer_select7(self, player: Seq<char>) -> Result<GameView, GameError> {
        match self.relative_player(player, -1) {
            Err(e) => Err(e),
            Ok(passer) => self.take_cards(
                FieldKeyView::Hands(player),
                FieldKeyView::Hands(passer),
                self.selects[self.seat_of(player)->0],
            ),
        }
    }

    /// The player takes the chosen cards from the excluded pile.
    pub open spec fn answer_select13(self, player: Seq<char>) -> Result<GameView, GameError> {
        match self.seat_of(player) {
            None => Err(GameError::FieldNotFound),
            Some(seat) => self.take_cards(
                FieldKeyView::Excluded,
                FieldKeyView::Hands(player),
                self.selects[seat],
            ),
        }
    }

    /// Nobody contests: the play on top of the river is completed for the
    /// player whose turn it is.
    pub open spec fn settle_top(self) -> Result<GameView, GameError> {
        match self.current {
            None => Err(GameError::FieldNotFound),
            Some(server) => if self.river.len() == 0 {
                Err(GameError::RiverEmpty)
            } else {
                self.settle(server, self.river.last())
            },
        }
    }

    /// The player at seat `s` contests with the ace: the chain closes into the
    /// discard pile, and the ace leaves the hand and opens a chain of
    /// one-card plays that is that player's, whose turn it is.
    pub open spec fn interrupt(self, s: int, ace: Card) -> GameView {
        GameView {
            trushes: self.trushes + self.river_cards(),
            hands: self.hands.update(s, without(self.hands[s], ace)),
            river: seq![seq![ace]],
            effect: EffectView { river_size: Some(1usize), ..self.effect.next_chain() },
            selects: self.selects.update(s, Seq::empty()),
            current: Some(self.players[s]),
            last_served_player_id: Some(self.players[s]),
            ..self
        }
    }

    /// What happens once all have answered the question in force: it leaves
    /// the queue with the answers, what it asked for is done, and nothing
    /// stays chosen at the seat of the player who answered last. Of the
    /// players who contest a play, the first in the question's order
    /// interrupts it where `chance` allows; else the play is completed.
    pub open spec fn close_prompt(self, player: Seq<char>, seat: int, chance: bool) -> Result<
        GameView,
        GameError,
    > {
        let g = self.dequeued();
        let done = match self.prompt[0].kind {
            PromptKind::Select4 => g.answer_select4(player),
            PromptKind::Select7 => g.answer_select7(player),
            PromptKind::Select13 => g.answer_select13(player),
            PromptKind::UseOneChance => if chance && self.contester_from(0) is Some {
                let s = self.contester_from(0)->0;
                Ok(g.interrupt(s, self.selects[s][0]))
            } else {
                g.settle_top()
            },
        };
        match done {
            Err(e) => Err(e),
            Ok(d) => Ok(d.unselected(seat)),
        }
    }

    /// The player answers the question in force. The answer is kept; once all
    /// those asked have answered, the question is closed.
    pub open spec fn answer(self, player: Seq<char>, token: Seq<char>, chance: bool) -> Result<
        GameView,
        GameError,
    > {
        match self.answer_allowed(player, token) {
            Err(e) => Err(e),
            Ok(seat) => {
                let noted = GameView { answers: self.answers.update(seat, Some(token)), ..self };
                if noted.all_answered() {
                    noted.close_prompt(player, seat, chance)
                } else {
                    Ok(noted)
                }
            },
        }
    }
}

/// Whether the player at the seat may answer a question that moves cards.
fn size_allowed(game: &Game, player_id: &String) -> (r: Result<(), GameError>)
    requires
        game.wf(),
    ensures
        r == (match game@.seat_of(player_id@) {
            None => Err::<(), GameError>(GameError::FieldNotFound),
            Some(seat) => if game@.chose_as_many(seat) {
                Ok(())
            } else {
                Err(GameError::InvalidAnswer)
            },
        }),
{
    let seat: usize = match game.seat_of(player_id.as_str()) {
        Some(seat) => seat,
        None => {
            return Err(GameError::FieldNotFound);
        },
    };
    assert(game@.selects.len() == game@.players.len());
    if game.river.len() == 0 {
        return Err(GameError::InvalidAnswer);
    }
    if game.selects[seat].len() != game.river[game.river.len() - 1].len() {
        return Err(GameError::InvalidAnswer);
    }
    Ok(())
}

/// The validation of an answer to the question after a four.
#[derive(Debug)]
pub struct ValidatePromptSelect4;

impl ValidatePromptSelect4 {
    /// Accepts the player who has chosen as many cards as the latest play has.
    pub fn on(&self, player_id: String, game: &mut Game) -> (r: Result<(), GameError>)
        requires
            old(game).wf(),
        ensures
            *final(game) == *old(game),
            r == (match old(game)@.seat_of(player_id@) {
                None => Err::<(), GameError>(GameError::FieldNotFound),
                Some(seat) => if old(game)@.chose_as_many(seat) {
                    Ok(())
                } else {
                    Err(GameError::InvalidAnswer)
                },
            }),
    {
        size_allowed(game, &player_id)
    }
}

/// The validation of an answer to the question after a seven.
#[derive(Debug)]
pub struct ValidatePromptSelect7;

impl ValidatePromptSelect7 {
    /// Accepts the player who has chosen as many cards as the latest play has.
    pub fn on(&self, player_id: String, game: &mut Game) -> (r: Result<(), GameError>)
        requires
            old(game).wf(),
        ensures
            *final(game) == *old(game),
            r == (match old(game)@.seat_of(player_id@) {
                None => Err::<(), GameError>(GameError::FieldNotFound),
                Some(seat) => if old(game)@.chose_as_many(seat) {
                    Ok(())
                } else {
                    Err(GameError::InvalidAnswer)
                },
            }),
    {
        size_allowed(game, &player_id)
    }
}

/// The validation of an answer to the question after a king.
#[derive(Debug)]
pub struct ValidatePromptSelect13;

impl ValidatePromptSelect13 {
    /// Accepts the player who has chosen as many cards as the latest play has.
    pub fn on(&self, player_id: String, game: &mut Game) -> (r: Result<(), GameError>)
        requires
            old(game).wf(),
        ensures
            *final(game) == *old(game),
            r == (match old(game)@.seat_of(player_id@) {
                None => Err::<(), GameError>(GameError::FieldNotFound),
                Some(seat) => if old(game)@.chose_as_many(seat) {
                    Ok(())
                } else {
                    Err(GameError::InvalidAnswer)
                },
            }),
    {
        size_allowed(game, &player_id)
    }
}

/// The validation of an answer to the question whether to contest a play.
#[derive(Debug)]
pub struct ValidatePromptSelectOneChance {
    pub answer: String,
}

impl ValidatePromptSelectOneChance {
    /// Accepts every answer but a "serve" of a player who has not chosen one
    /// card, an ace.
    pub fn on(&self, player_id: String, game: &mut Game) -> (r: Result<(), GameError>)
        requires
            old(game).wf(),
        ensures
            *final(game) == *old(game),
            r == (match old(game)@.seat_of(player_id@) {
                None => Err::<(), GameError>(GameError::FieldNotFound),
                Some(seat) => if self.answer@ == "serve"@ && !old(game)@.chose_an_ace(seat) {
                    Err(GameError::InvalidAnswer)
                } else {
                    Ok(())
                },
            }),
    {
        let seat: usize = match game.seat_of(player_id.as_str()) {
            Some(seat) => seat,
            None => {
                return Err(GameError::FieldNotFound);
            },
        };
        assert(game@.selects.len() == game@.players.len());
        let serve: String = String::from_str("serve");
        if self.answer == serve {
            let staged = game.selects[seat].as_slice();
            if staged.len() != 1 || number(staged) != 1 {
                return Err(GameError::InvalidAnswer);
            }
        }
        Ok(())
    }
}

/// What the answer to the question after a four leads to.
#[derive(Debug)]
pub struct AnswerPromptSelect4;

impl AnswerPromptSelect4 {
    /// Moves the cards that the player has chosen from the discard pile to
    /// the player's hand, and sorts the hand.
    pub fn on(&self, player_id: String, game: &mut Game) -> (r: Result<(), GameError>)
        requires
            old(game).wf(),
        ensures
            final(game).wf(),
            match old(game)@.answer_select4(player_id@) {
                Ok(g) => r is Ok && final(game)@ == g,
                Err(e) => r == Err::<(), GameError>(e) && final(game)@ == old(game)@,
            },
    {
        let seat: usize = match game.seat_of(player_id.as_str()) {
            Some(seat) => seat,
            None => {
                return Err(GameError::FieldNotFound);
            },
        };
        assert(game@.selects.len() == game@.players.len());
        let cards: Vec<Card> = copy_cards(game.selects[seat].as_slice());
        game.take_cards(&FieldKey::Trushes, &FieldKey::Hands(player_id), cards)
    }
}

/// What the answer to the question after a seven leads to.
#[derive(Debug)]
pub struct AnswerPromptSelect7;

impl AnswerPromptSelect7 {
    /// Moves the cards that the player has chosen from the player's hand to
    /// the hand of the player on the right, and sorts that hand.
    pub fn on(&self, player_id: String, game: &mut Game) -> (r: Result<(), GameError>)
        requires
            old(game).wf(),
        ensures
            final(game).wf(),
            match old(game)@.answer_select7(player_id@) {
                Ok(g) => r is Ok && final(game)@ == g,
                Err(e) => r == Err::<(), GameError>(e) && final(game)@ == old(game)@,
            },
    {
        let passer: String = match game.get_relative_player(player_id.as_str(), -1) {
            Ok(passer) => passer,
            Err(e) => {
                return Err(e);
            },
        };
        let seat: usize = match game.seat_of(player_id.as_str()) {
            Some(seat) => seat,
            None => {
                return Err(GameError::FieldNotFound);
            },
        };
        assert(game@.selects.len() == game@.players.len());
        let cards: Vec<Card> = copy_cards(game.selects[seat].as_slice());
        game.take_cards(&FieldKey::Hands(player_id), &FieldKey::Hands(passer), cards)
    }
}

/// What the answer to the question after a king leads to.
#[derive(Debug)]
pub struct AnswerPromptSelect13;

impl AnswerPromptSelect13 {
    /// Moves the cards that the player has chosen from the excluded pile to
    /// the player's hand, and sorts the hand.
    pub fn on(&self, player_id: String, game: &mut Game) -> (r: Result<(), GameError>)
        requires
            old(game).wf(),
        ensures
            final(game).wf(),
            match old(game)@.answer_select13(player_id@) {
                Ok(g) => r is Ok && final(game)@ == g,
                Err(e) => r == Err::<(), GameError>(e) && final(game)@ == old(game)@,
            },
    {
        let seat: usize = match game.seat_of(player_id.as_str()) {
            Some(seat) => seat,
            None => {
                return Err(GameError::FieldNotFound);
            },
        };
        assert(game@.selects.len() == game@.players.len());
        let cards: Vec<Card> = copy_cards(game.selects[seat].as_slice());
        game.take_cards(&FieldKey::Excluded, &FieldKey::Hands(player_id), cards)
    }
}

/// The steps of completing the play on top of the river, on a copy of the
/// match.
fn settle_top(game: &mut Game) -> (r: Result<(), GameError>)
    requires
        old(game).wf(),
    ensures
        match old(game)@.settle_top() {
            Ok(g) => r is Ok && final(game)@ == g && final(game).wf(),
            Err(e) => r == Err::<(), GameError>(e),
        },
{
    let server: String = match &game.current {
        Some(id) => id.clone(),
        None => {
            return Err(GameError::FieldNotFound);
        },
    };
    if game.river.len() == 0 {
        return Err(GameError::RiverEmpty);
    }
    let play: Vec<Card> = copy_cards(game.river[game.river.len() - 1].as_slice());
    settle(game, &server, play)
}

/// What the answers to the question whether to contest a play lead to where
/// nobody interrupts it.
#[derive(Debug)]
pub struct AnswerPromptSelectOneChance;

impl AnswerPromptSelectOneChance {
    /// Completes the play on top of the river for the player whose turn it
    /// is.
    pub fn on(&self, _player_id: String, game: &mut Game) -> (r: Result<(), GameError>)
        requires
            old(game).wf(),
        ensures
            final(game).wf(),
            match old(game)@.settle_top() {
                Ok(g) => r is Ok && final(game)@ == g,
                Err(e) => r == Err::<(), GameError>(e) && final(game)@ == old(game)@,
            },
    {
        let mut work: Game = game.clone();
        let r = settle_top(&mut work);
        if r.is_ok() {
            *game = work;
        }
        r
    }
}

/// Keeps the answer of the player at the seat.
fn note(game: &mut Game, seat: usize, token: &String)
    requires
        old(game).wf(),
        seat < old(game).answers@.len(),
    ensures
        final(game)@ == (GameView {
            answers: old(game)@.answers.update(seat as int, Some(token@)),
            ..old(game)@
        }),
{
    game.answers.set(seat, Some(token.clone()));
    assert(game@.answers =~= old(game)@.answers.update(seat as int, Some(token@)));
}

/// Whether all those asked have answered the question in force.
fn all_answered(game: &Game) -> (r: bool)
    requires
        game.wf(),
        game.prompt@.len() > 0,
    ensures
        r == game@.all_answered(),
{
    let asked = &game.prompt[0].player_ids;
    let mut i: usize = 0;
    while i < asked.len()
        invariant
            game.wf(),
            game.prompt@.len() > 0,
            *asked == game.prompt@[0].player_ids,
            i <= asked.len(),
            game@.answered_upto(i as int),
        decreases asked.len() - i,
    {
        assert(game@.prompt[0].player_ids[i as int] == asked@[i as int]@);
        if !game.has_answered(asked[i].as_str()) {
            return false;
        }
        i += 1;
    }
    true
}

/// The seat of the first of those asked who contests the play.
fn contester(game: &Game) -> (r: Option<usize>)
    requires
        game.wf(),
        game.prompt@.len() > 0,
    ensures
        match r {
            Some(s) => game@.contester_from(0) == Some(s as int) && s < game.hands@.len()
                && game@.contests_at(s as int),
            None => game@.contester_from(0) is None,
        },
{
    let asked = &game.prompt[0].player_ids;
    let serve: String = String::from_str("serve");
    let mut i: usize = 0;
    assert(game@.hands.len() == game@.players.len());
    assert(game@.selects.len() == game@.players.len());
    assert(game@.answers.len() == game@.players.len());
    while i < asked.len()
        invariant
            game.wf(),
            game.prompt@.len() > 0,
            *asked == game.prompt@[0].player_ids,
            serve@ == "serve"@,
            i <= asked.len(),
            game@.contester_from(0) == game@.contester_from(i as int),
        decreases asked.len() - i,
    {
        assert(game@.prompt[0].player_ids[i as int] == asked@[i as int]@);
        assert(game@.prompt[0].player_ids.len() == asked@.len());
        match game.seat_of(asked[i].as_str()) {
            Some(s) => {
                assert(game@.hands.len() == game@.players.len());
                assert(game@.selects.len() == game@.players.len());
                assert(game@.answers.len() == game@.players.len());
                let says_serve: bool = match &game.answers[s] {
                    Some(token) => *token == serve,
                    None => false,
                };
                let staged = game.selects[s].as_slice();
                if says_serve && staged.len() == 1 && number(staged) == 1 {
                    match position(game.hands[s].0.as_slice(), &staged[0]) {
                        Some(_) => {
                            return Some(s);
                        },
                        None => {},
                    }
                }
            },
            None => {},
        }
        i += 1;
    }
    None
}

/// Takes the question in force from the queue, and the answers with it.
fn dequeue(game: &mut Game)
    requires
        old(game).wf(),
        old(game).prompt@.len() > 0,
    ensures
        final(game)@ == old(game)@.dequeued(),
{
    game.prompt.remove(0);
    let mut i: usize = 0;
    while i < game.answers.len()
        invariant
            i <= game.answers.len(),
            game.answers@.len() == old(game).answers@.len(),
            forall|k: int| 0 <= k < i ==> game.answers@[k] is None,
            game.prompt@ == old(game).prompt@.remove(0),
            game.hands == old(game).hands,
            game.trushes == old(game).trushes,
            game.excluded == old(game).excluded,
            game.river == old(game).river,
            game.current == old(game).current,
            game.last_served_player_id == old(game).last_served_player_id,
            game.effect == old(game).effect,
            game.players == old(game).players,
            game.selects == old(game).selects,
        decreases game.answers.len() - i,
    {
        game.answers.set(i, None);
        i += 1;
    }
    proof {
        let g = old(game)@.dequeued();
        assert(game@.prompt =~= g.prompt);
        assert(game@.answers =~= g.answers);
    }
}

/// Empties the list of cards chosen at the seat.
fn unselect(game: &mut Game, seat: usize)
    requires
        seat < old(game).selects@.len(),
    ensures
        final(game)@ == old(game)@.unselected(seat as int),
{
    game.selects.set(seat, Vec::new());
    assert(game@.selects =~= old(game)@.selects.update(seat as int, Seq::<Card>::empty()));
}

/// Lets the player at the seat contest the play with the ace chosen.
fn interrupt(game: &mut Game, s: usize, ace: Card)
    requires
        old(game).wf(),
        s < old(game).hands@.len(),
    ensures
        final(game)@ == old(game)@.interrupt(s as int, ace),
{
    assert(game@.hands.len() == game@.players.len());
    assert(game@.selects.len() == game@.players.len());
    let mut pile: Vec<Card> = copy_cards(game.trushes.0.as_slice());
    let mut cards: Vec<Card> = game.river_cards();
    pile.append(&mut cards);
    let mut hand: Vec<Card> = copy_cards(game.hands[s].0.as_slice());
    match position(hand.as_slice(), &ace) {
        Some(at) => {
            proof {
                lemma_first_at_unique(hand@, ace, at as int);
            }
            hand.remove(at);
        },
        None => {},
    }
    let mut play: Vec<Card> = Vec::new();
    play.push(ace);
    let mut river: Vec<Vec<Card>> = Vec::new();
    river.push(play);
    let mut effect: Effect = Effect::new();
    effect.revoluted = game.effect.revoluted;
    effect.river_size = Some(1);
    let who: String = game.players[s].clone();
    game.trushes = Deck(pile);
    game.hands.set(s, Deck(hand));
    game.river = river;
    game.effect = effect;
    game.selects.set(s, Vec::new());
    game.current = Some(who.clone());
    game.last_served_player_id = Some(who);
    proof {
        let g = old(game)@.interrupt(s as int, ace);
        assert(game@.hands =~= g.hands);
        assert(game@.river =~= g.river);
        assert(game@.selects =~= g.selects);
    }
}

/// The steps of closing the question in force, on a copy of the match.
fn close_prompt(game: &mut Game, player_id: &String, seat: usize, chance: bool) -> (r: Result<
    (),
    GameError,
>)
    requires
        old(game).wf(),
        old(game).prompt@.len() > 0,
        seat < old(game).selects@.len(),
    ensures
        match old(game)@.close_prompt(player_id@, seat as int, chance) {
            Ok(g) => r is Ok && final(game)@ == g && final(game).wf(),
            Err(e) => r == Err::<(), GameError>(e),
        },
{
    let kind: PromptKind = game.prompt[0].kind;
    let first: Option<usize> = match kind {
        PromptKind::UseOneChance => contester(game),
        _ => None,
    };
    let ace: Option<Card> = match first {
        Some(s) => {
            assert(game@.selects.len() == game@.players.len());
            assert(game@.hands.len() == game@.players.len());
            assert(game@.contests_at(s as int));
            Some(game.selects[s][0])
        },
        None => None,
    };
    dequeue(game);
    let done: Result<(), GameError> = match kind {
        PromptKind::Select4 => AnswerPromptSelect4.on(player_id.clone(), game),
        PromptKind::Select7 => AnswerPromptSelect7.on(player_id.clone(), game),
        PromptKind::Select13 => AnswerPromptSelect13.on(player_id.clone(), game),
        PromptKind::UseOneChance => match (first, ace) {
            (Some(s), Some(card)) => {
                if chance {
                    interrupt(game, s, card);
                    Ok(())
                } else {
                    settle_top(game)
                }
            },
            _ => settle_top(game),
        },
    };
    match done {
        Ok(()) => {},
        Err(e) => {
            return Err(e);
        },
    }
    assert(game@.selects.len() == game@.players.len());
    assert(game@.players.len() == old(game)@.players.len());
    unselect(game, seat);
    Ok(())
}

/// The steps of an answer, on a copy of the match.
fn answer_on(player_id: &String, token: &String, chance: bool, game: &mut Game) -> (r: Result<
    (),
    GameError,
>)
    requires
        old(game).wf(),
    ensures
        match old(game)@.answer(player_id@, token@, chance) {
            Ok(g) => r is Ok && final(game)@ == g && final(game).wf(),
            Err(e) => r == Err::<(), GameError>(e),
        },
{
    if game.prompt.len() == 0 {
        return Err(GameError::InvalidAnswer);
    }
    if !holds_text(&game.prompt[0].player_ids, player_id.as_str()) {
        return Err(GameError::InvalidAnswer);
    }
    let seat: usize = match game.seat_of(player_id.as_str()) {
        Some(seat) => seat,
        None => {
            return Err(GameError::FieldNotFound);
        },
    };
    assert(game@.answers.len() == game@.players.len());
    assert(game@.selects.len() == game@.players.len());
    let answered: bool = match &game.answers[seat] {
        Some(_) => true,
        None => false,
    };
    if answered || !holds_text(&game.prompt[0].options, token.as_str()) {
        return Err(GameError::InvalidAnswer);
    }
    let allowed: Result<(), GameError> = match game.prompt[0].kind {
        PromptKind::UseOneChance => {
            let validate = ValidatePromptSelectOneChance { answer: token.clone() };
            validate.on(player_id.clone(), game)
        },
        _ => size_allowed(game, player_id),
    };
    match allowed {
        Ok(()) => {},
        Err(e) => {
            return Err(e);
        },
    }
    note(game, seat, token);
    if all_answered(game) {
        close_prompt(game, player_id, seat, chance)
    } else {
        Ok(())
    }
}

/// Whether the state after an operation and its result are what `model`
/// says: the new state where it succeeds, else its error and the state as it
/// was.
pub open spec fn outcome_of(
    before: GameView,
    after: GameView,
    r: Result<(), GameError>,
    model: Result<GameView, GameError>,
) -> bool {
    match model {
        Ok(g) => r is Ok && after == g,
        Err(e) => r == Err::<(), GameError>(e) && after == before,
    }
}

/// Whether chance lets a contest take effect: one draw in as many as there
/// are players who hold cards.
pub open spec fn chance_of(draw: u32, active: int) -> bool {
    active > 0 && (draw as int) % active == 0
}

/// Whether the draw lets a contest take effect among so many players who
/// hold cards.
pub fn takes_effect(draw: u32, active: usize) -> (r: bool)
    ensures
        r == chance_of(draw, active as int),
{
    active > 0 && (draw as usize) % active == 0
}

/// Whether `chance` is what some draw makes of the match: a contest takes
/// effect at one draw in as many as there are players who hold cards.
pub open spec fn drawn(g: GameView, chance: bool) -> bool {
    exists|draw: u32| chance == chance_of(draw, active_in(g.hands).len() as int)
}

/// Draws whether a contest takes effect in the match.
pub fn draw_chance(game: &Game) -> (r: bool)
    ensures
        drawn(game@, r),
{
    let draw: u32 = rand();
    let active: usize = game.active_seats().len();
    let r = takes_effect(draw, active);
    assert(r == chance_of(draw, active_in(game@.hands).len() as int));
    r
}

/// The answer of a player to the question in force.
#[derive(Debug)]
pub struct Answer {
    pub answer: String,
}

impl Answer {
    /// Takes the answer of the player, where `chance` says whether a contest
    /// takes effect, or changes nothing where the answer is refused.
    pub fn on_chance(&self, player_id: String, game: &mut Game, chance: bool) -> (r: Result<
        (),
        GameError,
    >)
        requires
            old(game).wf(),
        ensures
            final(game).wf(),
            outcome_of(
                old(game)@,
                final(game)@,
                r,
                old(game)@.answer(player_id@, self.answer@, chance),
            ),
    {
        let mut work: Game = game.clone();
        let r = answer_on(&player_id, &self.answer, chance, &mut work);
        if r.is_ok() {
            *game = work;
        }
        r
    }

    /// Takes the answer of the player. Whether a contest takes effect is
    /// drawn by chance.
    pub fn on(&self, player_id: String, game: &mut Game) -> (r: Result<(), GameError>)
        requires
            old(game).wf(),
        ensures
            final(game).wf(),
            exists|chance: bool|
                drawn(old(game)@, chance) && outcome_of(
                    old(game)@,
                    final(game)@,
                    r,
                    old(game)@.answer(player_id@, self.answer@, chance),
                ),
    {
        let chance: bool = draw_chance(game);
        self.on_chance(player_id, game, chance)
    }
}

} // verus!
