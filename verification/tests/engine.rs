use career_poker::card::{Card, Suit};
use career_poker::deck::{deck_ord, Deck};
use career_poker::error::GameError;
use career_poker::events::answer::Answer;
use career_poker::events::distribute::Distribute;
use career_poker::events::pass::Pass;
use career_poker::events::select::Select;
use career_poker::events::effect_card::EffectCard;
use career_poker::events::serve::{Serve, ValidateServe};
use career_poker::state::{refusal, servable, CareerPokerState};
use career_poker::game::{FieldKey, Game, Prompt, PromptKind};
use std::cmp::Ordering;

fn card(text: &str) -> Card {
    Card::try_from(text).unwrap()
}

fn cards(texts: &[&str]) -> Vec<Card> {
    texts.iter().map(|t| card(t)).collect()
}

fn game_of(players: &[&str]) -> Game {
    Game::new(players.iter().map(|p| p.to_string()).collect())
}

#[test]
fn threes_disable_effects_and_size_counts() {
    let mut game = game_of(&["a", "b"]);
    game.hands[0] = Deck::new(cards(&["3h", "3d", "4s"]));
    game.hands[1] = Deck::new(cards(&["Kh"]));
    game.current = Some("a".to_string());
    game.selects[0] = cards(&["3h", "3d"]);
    assert_eq!(Serve.on("a".to_string(), &mut game), Ok(()));
    assert_eq!(game.effect.river_size, Some(2));
    for n in 1u8..=13 {
        assert!(game.effect.effect_limits.contains(&n));
    }
    assert_eq!(game.current, Some("b".to_string()));
    assert_eq!(game.river, vec![cards(&["3h", "3d"])]);
    assert_eq!(game.hands[0], Deck::new(cards(&["4s"])));
    game.selects[1] = cards(&["Kh"]);
    let before = format!("{:?}", game);
    assert_eq!(Serve.on("b".to_string(), &mut game), Err(GameError::SizeMismatch));
    assert_eq!(format!("{:?}", game), before);
}

#[test]
fn ace_beats_king() {
    let mut game = game_of(&["a", "b"]);
    game.river.push(cards(&["Kh"]));
    game.effect.river_size = Some(1);
    let validate = ValidateServe { serves: cards(&["Ah"]) };
    assert_eq!(validate.on("a".to_string(), &mut game), Ok(()));
    assert_eq!(deck_ord(&cards(&["Ah"]), &cards(&["Kh"])), Ordering::Greater);
}

#[test]
fn answer_after_a_four_moves_cards() {
    let mut game = game_of(&["p", "q"]);
    game.hands[0] = Deck::new(cards(&["5h"]));
    game.hands[1] = Deck::new(cards(&["6h"]));
    game.trushes = Deck::new(cards(&["As", "Ad"]));
    game.river.push(cards(&["4h", "4d"]));
    game.current = Some("q".to_string());
    game.prompt.push(Prompt {
        kind: PromptKind::Select4,
        player_ids: vec!["p".to_string()],
        question: "select cards from trushes".to_string(),
        options: vec!["ok".to_string()],
    });
    game.selects[0] = cards(&["As"]);
    let answer = Answer { answer: "ok".to_string() };
    assert_eq!(answer.on("p".to_string(), &mut game), Err(GameError::InvalidAnswer));
    assert_eq!(game.trushes, Deck::new(cards(&["As", "Ad"])));
    game.selects[0] = cards(&["As", "Ad"]);
    assert_eq!(answer.on("p".to_string(), &mut game), Ok(()));
    assert_eq!(game.trushes, Deck::new(vec![]));
    assert_eq!(game.hands[0], Deck::new(cards(&["5h", "As", "Ad"])));
    assert!(game.prompt.is_empty());
    assert!(game.selects[0].is_empty());
}

#[test]
fn distribute_deals_the_full_deck() {
    for n in 1usize..=7 {
        let names: Vec<String> = (0..n).map(|i| format!("p{}", i)).collect();
        let mut game = Game::new(names);
        assert_eq!(Distribute.on("p0".to_string(), &mut game), Ok(()));
        let mut all: Vec<String> = Vec::new();
        let mut least = usize::MAX;
        let mut most = 0usize;
        for hand in game.hands.iter() {
            least = least.min(hand.0.len());
            most = most.max(hand.0.len());
            for c in hand.0.iter() {
                all.push(c.to_string());
            }
        }
        assert!(most - least <= 1);
        let mut pool: Vec<String> = Deck::all(2).0.iter().map(|c| c.to_string()).collect();
        all.sort();
        pool.sort();
        assert_eq!(all, pool);
        assert_eq!(game.current, Some("p0".to_string()));
    }
}

#[test]
fn pass_round_closes_the_chain() {
    let mut game = game_of(&["a", "b", "c"]);
    game.hands[0] = Deck::new(cards(&["6h", "7h"]));
    game.hands[1] = Deck::new(cards(&["9h"]));
    game.hands[2] = Deck::new(cards(&["Th"]));
    game.current = Some("a".to_string());
    assert_eq!(
        Select { field: "a".to_string(), card: card("6h") }.on("a".to_string(), &mut game),
        Ok(())
    );
    assert_eq!(Serve.on("a".to_string(), &mut game), Ok(()));
    assert_eq!(game.current, Some("b".to_string()));
    assert_eq!(Pass.on("a".to_string(), &mut game), Err(GameError::NotYourTurn));
    assert_eq!(Pass.on("b".to_string(), &mut game), Ok(()));
    assert_eq!(game.current, Some("c".to_string()));
    assert_eq!(game.river.len(), 1);
    assert_eq!(Pass.on("c".to_string(), &mut game), Ok(()));
    assert_eq!(game.current, Some("a".to_string()));
    assert!(game.river.is_empty());
    assert_eq!(game.trushes, Deck::new(cards(&["6h"])));
    assert_eq!(game.effect.river_size, None);
    assert_eq!(game.field(&FieldKey::Trushes).unwrap(), &Deck::new(cards(&["6h"])));
    assert_eq!(Card::Number(Suit::Heart, 6), card("6h"));
}

#[test]
fn threes_in_a_room() {
    let mut state = CareerPokerState::new("room".to_string());
    state.join("a".to_string());
    state.join("b".to_string());
    state.fields.insert("a".to_string(), Deck::new(cards(&["3h", "3d"])));
    state.fields.insert("b".to_string(), Deck::new(cards(&["Kh"])));
    assert_eq!(state.effect.river_size, None);
    assert_eq!(state.serve("a".to_string(), cards(&["3h", "3d"])), Ok(()));
    assert_eq!(state.effect.river_size, Some(2));
    for n in 1u8..=13 {
        assert!(state.effect.effect_limits.contains(&n));
    }
    assert_eq!(state.current, Some("b".to_string()));
    assert!(!servable(&state, &cards(&["Kh"])));
    assert_eq!(refusal(&state, &cards(&["Kh"])), Some(GameError::SizeMismatch));
}

#[test]
fn threes_step_by_step() {
    let mut game = game_of(&["a", "b"]);
    game.hands[0] = Deck::new(vec![]);
    game.hands[1] = Deck::new(cards(&["Kh"]));
    game.current = Some("a".to_string());
    let play = cards(&["3h", "3d"]);
    assert_eq!(ValidateServe { serves: play.clone() }.on("a".to_string(), &mut game), Ok(()));
    game.river.push(play.clone());
    assert_eq!(EffectCard { serves: play }.on("a".to_string(), &mut game), Ok(()));
    assert_eq!(game.effect.river_size, Some(2));
    assert_eq!(game.effect.effect_limits.len(), 13);
    let king = ValidateServe { serves: cards(&["Kh"]) };
    assert_eq!(king.on("b".to_string(), &mut game), Err(GameError::SizeMismatch));
}

#[test]
fn the_last_cards_of_a_hand_end_a_match_of_two() {
    let mut game = game_of(&["a", "b"]);
    game.hands[0] = Deck::new(cards(&["3h", "3d"]));
    game.hands[1] = Deck::new(cards(&["Kh"]));
    game.current = Some("a".to_string());
    game.selects[0] = cards(&["3h", "3d"]);
    assert_eq!(Serve.on("a".to_string(), &mut game), Err(GameError::MatchEnded));
    assert_eq!(game.hands[0], Deck::new(cards(&["3h", "3d"])));
    assert!(game.river.is_empty());
}
