//! What a play that was accepted does to the rules of the chain.

use crate::card::{number, number_of, suits, suits_of, Card};
use crate::effect::{insert_ranks, ranks_between, Effect, EffectView};
use crate::error::GameError;
use crate::game::{Game, GameView, Prompt, PromptKind, PromptView};
use crate::events::serve::toggled;
use vstd::prelude::*;

verus! {

broadcast use vstd::std_specs::hash::group_hash_axioms;

impl PromptView {
    /// The question that a play of fours, sevens or kings puts to the player
    /// who made it.
    pub open spec fn choose_cards(kind: PromptKind, player: Seq<char>) -> PromptView {
        PromptView {
            kind: kind,
            player_ids: seq![player],
            question: match kind {
                PromptKind::Select4 => "select cards from trushes"@,
                PromptKind::Select7 => "select cards from hands"@,
                PromptKind::Select13 => "select cards from excluded"@,
                PromptKind::UseOneChance => "select A if use one chance"@,
            },
            options: seq!["ok"@],
        }
    }
}

impl EffectView {
    /// What a play does that every play does: it sets the size of the
    /// chain's plays, and four cards turn the lasting order of strength round.
    pub open spec fn sized(self, play: Seq<Card>) -> EffectView {
        EffectView {
            river_size: Some(play.len() as usize),
            revoluted: if play.len() == 4 {
                !self.revoluted
            } else {
                self.revoluted
            },
            ..self
        }
    }

    /// The rules after a play: `sized`, and where the rule of the play's rank
    /// is in force, what that rule does to the rules. A three switches off
    /// the rules of all ranks, a ten those of ace to nine; a nine turns a size
    /// of one to three and back; a jack reverses the order for the chain; a
    /// queen asks for steps and locks the suits of the play.
    pub open spec fn ruled(self, play: Seq<Card>) -> EffectView {
        let n = number_of(play);
        let e = self.sized(play);
        if !self.active(n) {
            e
        } else if n == 3 {
            EffectView { effect_limits: e.effect_limits.union(ranks_between(1, 14)), ..e }
        } else if n == 9 {
            EffectView { river_size: Some(toggled(play.len() as usize)), ..e }
        } else if n == 10 {
            EffectView { effect_limits: e.effect_limits.union(ranks_between(1, 10)), ..e }
        } else if n == 11 {
            EffectView { turn_revoluted: true, ..e }
        } else if n == 12 {
            EffectView { is_step: true, suit_limits: suits_of(play), ..e }
        } else {
            e
        }
    }
}

impl GameView {
    /// The match with one more question at the end of the queue.
    pub open spec fn with_prompt(self, prompt: PromptView) -> GameView {
        GameView { prompt: self.prompt.push(prompt), ..self }
    }

    /// The match with other rules in force.
    pub open spec fn with_effect(self, effect: EffectView) -> GameView {
        GameView { effect: effect, ..self }
    }

    /// The question that a play of rank `n` puts to the player at `seat` who
    /// made it: after a four to take cards from the discard pile and after a
    /// king from the excluded pile, where the hand and that pile hold cards;
    /// after a seven to hand cards on, where the hand holds any.
    pub open spec fn asks(self, seat: int, n: u8) -> Option<PromptKind> {
        if n == 4 && self.hands[seat].len() > 0 && self.trushes.len() > 0 {
            Some(PromptKind::Select4)
        } else if n == 7 && self.hands[seat].len() > 0 {
            Some(PromptKind::Select7)
        } else if n == 13 && self.hands[seat].len() > 0 && self.excluded.len() > 0 {
            Some(PromptKind::Select13)
        } else {
            None
        }
    }

    /// Applies the rule of the rank of a play that `player` made and that was
    /// accepted. Where the rank's rule is switched off, the play only sets
    /// the size of the chain's plays and, with four cards, turns the order.
    pub open spec fn resolve(self, player: Seq<char>, play: Seq<Card>) -> Result<
        GameView,
        GameError,
    > {
        let n = number_of(play);
        let g = self.with_effect(self.effect.ruled(play));
        if !self.effect.active(n) {
            Ok(g)
        } else {
            match self.seat_of(player) {
                None => Err(GameError::FieldNotFound),
                Some(seat) => if !(1 <= n <= 13) {
                    Err(GameError::InvalidRank)
                } else {
                    match self.asks(seat, n) {
                        Some(kind) => Ok(g.with_prompt(PromptView::choose_cards(kind, player))),
                        None => Ok(g),
                    }
                },
            }
        }
    }
}

/// Applies a play to the rules in force.
pub fn apply_play(effect: &mut Effect, play: &[Card])
    ensures
        final(effect)@ == old(effect)@.ruled(play@),
{
    let n: u8 = number(play);
    let size: usize = play.len();
    let active: bool = !effect.effect_limits.contains(&n);
    effect.river_size = Some(size);
    if size == 4 {
        effect.revoluted = !effect.revoluted;
    }
    if active {
        if n == 3 {
            insert_ranks(&mut effect.effect_limits, 1, 14);
        } else if n == 9 {
            effect.river_size = Some(
                if size == 1 {
                    3
                } else if size == 3 {
                    1
                } else {
                    size
                },
            );
        } else if n == 10 {
            insert_ranks(&mut effect.effect_limits, 1, 10);
        } else if n == 11 {
            effect.turn_revoluted = true;
        } else if n == 12 {
            effect.is_step = true;
            effect.suit_limits = suits(play);
        }
    }
}

/// A question to one player with the one answer "ok".
fn choose_cards(kind: PromptKind, player_id: &String) -> (p: Prompt)
    ensures
        p@ == PromptView::choose_cards(kind, player_id@),
{
    let question = match kind {
        PromptKind::Select4 => String::from_str("select cards from trushes"),
        PromptKind::Select7 => String::from_str("select cards from hands"),
        PromptKind::Select13 => String::from_str("select cards from excluded"),
        PromptKind::UseOneChance => String::from_str("select A if use one chance"),
    };
    let mut player_ids: Vec<String> = Vec::new();
    player_ids.push(player_id.clone());
    let mut options: Vec<String> = Vec::new();
    options.push(String::from_str("ok"));
    let p = Prompt { kind, player_ids, question, options };
    assert(p@.player_ids =~= seq![player_id@]);
    assert(p@.options =~= seq!["ok"@]);
    p
}

/// The rule of the rank of a play that was accepted.
#[derive(Debug)]
pub struct EffectCard {
    pub serves: Vec<Card>,
}

impl EffectCard {
    /// Applies the rule of the play's rank for the player who made the play,
    /// or changes nothing where the player has no seat or the rank is none of
    /// 1 to 13.
    pub fn on(&self, player_id: String, game: &mut Game) -> (r: Result<(), GameError>)
        requires
            old(game).wf(),
        ensures
            final(game).wf(),
            match old(game)@.resolve(player_id@, self.serves@) {
                Ok(g) => r is Ok && final(game)@ == g,
                Err(e) => r == Err::<(), GameError>(e) && final(game)@ == old(game)@,
            },
    {
        let n: u8 = number(self.serves.as_slice());
        if game.effect.effect_limits.contains(&n) {
            apply_play(&mut game.effect, self.serves.as_slice());
            return Ok(());
        }
        let seat: usize = match game.seat_of(player_id.as_str()) {
            Some(seat) => seat,
            None => {
                return Err(GameError::FieldNotFound);
            },
        };
        if n < 1 || n > 13 {
            return Err(GameError::InvalidRank);
        }
        assert(game@.hands.len() == game@.players.len());
        let holds: bool = game.hands[seat].0.len() > 0;
        let asks: Option<PromptKind> = if n == 4 && holds && game.trushes.0.len() > 0 {
            Some(PromptKind::Select4)
        } else if n == 7 && holds {
            Some(PromptKind::Select7)
        } else if n == 13 && holds && game.excluded.0.len() > 0 {
            Some(PromptKind::Select13)
        } else {
            None
        };
        apply_play(&mut game.effect, self.serves.as_slice());
        match asks {
            Some(kind) => {
                let p = choose_cards(kind, &player_id);
                game.prompt.push(p);
                assert(game@.prompt =~= old(game)@.prompt.push(p@));
            },
            None => {},
        }
        Ok(())
    }
}

} // verus!
