//! What one player sees of a match.

use crate::card::{card_pictures, Card, Suit};
use crate::deck::position;
use crate::error::GameError;
use crate::game::{copy_maybe_text, maybe_text, prompts, Game, GameView, Prompt, PromptView};
use vstd::prelude::*;

verus! {

/// A card as it is shown: its picture, its text, and whether the viewer has
/// chosen it.
#[derive(Debug)]
pub struct CardView {
    pub picture: char,
    pub text: String,
    pub selected: bool,
}

impl View for CardView {
    type V = (char, Seq<char>, bool);

    open spec fn view(&self) -> (char, Seq<char>, bool) {
        (self.picture, self.text@, self.selected)
    }
}

/// The cards of a pile as they are shown.
pub open spec fn card_views(v: Seq<CardView>) -> Seq<(char, Seq<char>, bool)> {
    Seq::new(v.len(), |i: int| v[i]@)
}

/// What a player sees of a match: whose turn it is, the piles, the play on
/// top of the river, the player's own hand, and the questions.
#[derive(Debug)]
pub struct Ctx {
    pub is_current: bool,
    pub current: Option<String>,
    pub trushes: Vec<CardView>,
    pub excluded: Vec<CardView>,
    pub river: Vec<CardView>,
    pub hands: Vec<CardView>,
    pub show_prompt: bool,
    pub prompt: Vec<Prompt>,
}

/// What a `Ctx` holds, as plain values.
#[verifier::ext_equal]
pub struct CtxView {
    pub is_current: bool,
    pub current: Option<Seq<char>>,
    pub trushes: Seq<(char, Seq<char>, bool)>,
    pub excluded: Seq<(char, Seq<char>, bool)>,
    pub river: Seq<(char, Seq<char>, bool)>,
    pub hands: Seq<(char, Seq<char>, bool)>,
    pub show_prompt: bool,
    pub prompt: Seq<PromptView>,
}

impl View for Ctx {
    type V = CtxView;

    open spec fn view(&self) -> CtxView {
        CtxView {
            is_current: self.is_current,
            current: maybe_text(self.current),
            trushes: card_views(self.trushes@),
            excluded: card_views(self.excluded@),
            river: card_views(self.river@),
            hands: card_views(self.hands@),
            show_prompt: self.show_prompt,
            prompt: prompts(self.prompt@),
        }
    }
}

impl Card {
    /// Whether the table of pictures has a picture for the card.
    pub open spec fn has_picture(self) -> bool {
        (self matches Card::Number(_, n) ==> n >= 1) && self.picture_index() < 54
    }

    /// The picture of the card, where the table of pictures has one.
    pub fn picture(&self) -> (r: Option<char>)
        ensures
            r == (if self.has_picture() {
                Some(card_pictures()[self.picture_index()])
            } else {
                None
            }),
    {
        match self {
            Card::Number(s, n) => {
                let block: usize = match s {
                    Suit::Spade => 0,
                    Suit::Heart => 1,
                    Suit::Diamond => 2,
                    Suit::Clover => 3,
                    Suit::UnSuited => 0,
                };
                let rank: usize = *n as usize;
                if rank >= 1 && block * 13 + rank < 54 {
                    Some(self.char())
                } else {
                    None
                }
            },
            Card::Joker(_) => Some(self.char()),
        }
    }
}

/// Whether every card of the pile has a picture.
pub open spec fn showable(cards: Seq<Card>) -> bool {
    forall|i: int| 0 <= i < cards.len() ==> (#[trigger] cards[i]).has_picture()
}

/// The cards of a pile as they are shown to a player who has chosen
/// `selects`.
pub open spec fn shown(cards: Seq<Card>, selects: Seq<Card>) -> Seq<(char, Seq<char>, bool)> {
    Seq::new(
        cards.len(),
        |i: int|
            (
                card_pictures()[cards[i].picture_index()],
                cards[i].text_of(),
                selects.contains(cards[i]),
            ),
    )
}

impl GameView {
    /// The play on top of the river; no cards where the river is empty.
    pub open spec fn top(self) -> Seq<Card> {
        if self.river.len() > 0 {
            self.river.last()
        } else {
            Seq::empty()
        }
    }

    /// What the player sees of the match. A player without a seat sees
    /// nothing, and a card without a picture cannot be shown.
    pub open spec fn projection(self, player: Seq<char>) -> Result<CtxView, GameError> {
        match self.seat_of(player) {
            None => Err(GameError::FieldNotFound),
            Some(seat) => if !showable(self.trushes) || !showable(self.excluded) || !showable(
                self.top(),
            ) || !showable(self.hands[seat]) {
                Err(GameError::InvalidRank)
            } else {
                Ok(
                    CtxView {
                        is_current: self.current == Some(player),
                        current: self.current,
                        trushes: shown(self.trushes, self.selects[seat]),
                        excluded: shown(self.excluded, self.selects[seat]),
                        river: shown(self.top(), Seq::empty()),
                        hands: shown(self.hands[seat], self.selects[seat]),
                        show_prompt: self.pending_for(player),
                        prompt: self.prompt,
                    },
                )
            },
        }
    }
}

/// Whether the pile holds the card.
pub fn holds_card(cards: &[Card], card: &Card) -> (r: bool)
    ensures
        r == cards@.contains(*card),
{
    match position(cards, card) {
        Some(_) => true,
        None => false,
    }
}

impl Ctx {
    /// The card as it is shown to a player who has chosen `selects`, where
    /// it has a picture.
    pub fn card_view(card: &Card, selects: &[Card]) -> (r: Option<CardView>)
        ensures
            match r {
                Some(v) => card.has_picture() && v@ == (
                    card_pictures()[card.picture_index()],
                    card.text_of(),
                    selects@.contains(*card),
                ),
                None => !card.has_picture(),
            },
    {
        match card.picture() {
            Some(picture) => Some(
                CardView {
                    picture,
                    text: card.to_string(),
                    selected: holds_card(selects, card),
                },
            ),
            None => None,
        }
    }

    /// The cards of a pile as they are shown to a player who has chosen
    /// `selects`, where every card has a picture.
    pub fn into_deck_view(cards: &[Card], selects: &[Card]) -> (r: Result<
        Vec<CardView>,
        GameError,
    >)
        ensures
            match r {
                Ok(v) => showable(cards@) && card_views(v@) == shown(cards@, selects@),
                Err(e) => !showable(cards@) && e == GameError::InvalidRank,
            },
    {
        let mut v: Vec<CardView> = Vec::new();
        let mut i: usize = 0;
        while i < cards.len()
            invariant
                i <= cards.len(),
                v@.len() == i,
                forall|k: int| 0 <= k < i ==> (#[trigger] cards@[k]).has_picture(),
                forall|k: int| 0 <= k < i ==> (#[trigger] v@[k])@ == shown(cards@, selects@)[k],
            decreases cards.len() - i,
        {
            match Ctx::card_view(&cards[i], selects) {
                Some(view) => {
                    v.push(view);
                },
                None => {
                    assert(!cards@[i as int].has_picture());
                    return Err(GameError::InvalidRank);
                },
            }
            i += 1;
        }
        assert(card_views(v@) =~= shown(cards@, selects@));
        Ok(v)
    }

    /// What the player sees of the match.
    pub fn new(game: &Game, player_id: String) -> (r: Result<Ctx, GameError>)
        requires
            game.wf(),
        ensures
            match r {
                Ok(ctx) => game@.projection(player_id@) == Ok::<CtxView, GameError>(ctx@),
                Err(e) => game@.projection(player_id@) == Err::<CtxView, GameError>(e),
            },
    {
        let seat: usize = match game.seat_of(player_id.as_str()) {
            Some(seat) => seat,
            None => {
                return Err(GameError::FieldNotFound);
            },
        };
        assert(game@.selects.len() == game@.players.len());
        assert(game@.hands.len() == game@.players.len());
        let selects = game.selects[seat].as_slice();
        let trushes = match Ctx::into_deck_view(game.trushes.0.as_slice(), selects) {
            Ok(v) => v,
            Err(e) => {
                return Err(e);
            },
        };
        let excluded = match Ctx::into_deck_view(game.excluded.0.as_slice(), selects) {
            Ok(v) => v,
            Err(e) => {
                return Err(e);
            },
        };
        let nothing: Vec<Card> = Vec::new();
        let top: Vec<Card> = if game.river.len() > 0 {
            crate::deck::copy_cards(game.river[game.river.len() - 1].as_slice())
        } else {
            Vec::new()
        };
        let river = match Ctx::into_deck_view(top.as_slice(), nothing.as_slice()) {
            Ok(v) => v,
            Err(e) => {
                return Err(e);
            },
        };
        let hands = match Ctx::into_deck_view(game.hands[seat].0.as_slice(), selects) {
            Ok(v) => v,
            Err(e) => {
                return Err(e);
            },
        };
        let mut prompt: Vec<Prompt> = Vec::new();
        let mut i: usize = 0;
        while i < game.prompt.len()
            invariant
                i <= game.prompt.len(),
                prompt@.len() == i,
                forall|k: int| 0 <= k < i ==> prompt@[k]@ == game.prompt@[k]@,
            decreases game.prompt.len() - i,
        {
            prompt.push(game.prompt[i].clone());
            i += 1;
        }
        assert(prompts(prompt@) =~= game@.prompt);
        Ok(
            Ctx {
                is_current: game.is_current(player_id.as_str()),
                current: copy_maybe_text(&game.current),
                trushes,
                excluded,
                river,
                hands,
                show_prompt: game.pending_for(player_id.as_str()),
                prompt,
            },
        )
    }
}

} // verus!
