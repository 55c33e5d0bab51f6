use career_poker::card::{Card, Suit};
use career_poker::deck::Deck;
use career_poker::effect::Effect;
use career_poker::error::GameError;
use career_poker::events::answer::{
    takes_effect, Answer, AnswerPromptSelect13, AnswerPromptSelect4, AnswerPromptSelect7,
    AnswerPromptSelectOneChance, ValidatePromptSelect13, ValidatePromptSelect4,
    ValidatePromptSelect7, ValidatePromptSelectOneChance,
};
use career_poker::events::distribute::Distribute;
use career_poker::events::effect_card::{apply_play, EffectCard};
use career_poker::events::pass::Pass;
use career_poker::events::select::Select;
use career_poker::events::serve::{has_ace, Serve, ValidateServe};
use career_poker::events::{
    handle_event, handle_event_with, into_event_handler, Event, EventError, Handler,
};
use career_poker::card::ParseError;
use career_poker::game::{holds_text, FieldKey, Game, Prompt, PromptKind};
use career_poker::game_view::Ctx;

fn c(text: &str) -> Card {
    Card::try_from(text).unwrap()
}

fn cs(texts: &[&str]) -> Vec<Card> {
    texts.iter().map(|t| c(t)).collect()
}

fn table(hands: &[(&str, &[&str])]) -> Game {
    let mut game = Game::new(hands.iter().map(|(p, _)| p.to_string()).collect());
    for (i, (_, cards)) in hands.iter().enumerate() {
        game.hands[i] = Deck::new(cs(cards));
    }
    game.current = Some(hands[0].0.to_string());
    game
}

fn pick(game: &mut Game, player: &str, cards: &[&str]) {
    for card in cards {
        let select = Select { field: player.to_string(), card: c(card) };
        assert_eq!(select.on(player.to_string(), game), Ok(()));
    }
}

fn serve(game: &mut Game, player: &str, cards: &[&str]) -> Result<(), GameError> {
    pick(game, player, cards);
    Serve.on(player.to_string(), game)
}

fn snapshot(game: &Game) -> String {
    format!("{:?}", game)
}

#[test]
fn new_game_has_empty_piles() {
    let game = Game::new(vec!["a".to_string(), "b".to_string()]);
    assert_eq!(game.players, vec!["a".to_string(), "b".to_string()]);
    assert_eq!(game.hands, vec![Deck::new(vec![]), Deck::new(vec![])]);
    assert_eq!(game.selects, vec![Vec::<Card>::new(), Vec::<Card>::new()]);
    assert_eq!(game.answers, vec![None, None]);
    assert_eq!(game.trushes, Deck::new(vec![]));
    assert_eq!(game.excluded, Deck::new(vec![]));
    assert!(game.river.is_empty());
    assert!(game.prompt.is_empty());
    assert_eq!(game.current, None);
    assert_eq!(game.last_served_player_id, None);
    assert_eq!(game.effect.river_size, None);
    assert!(!game.effect.revoluted);
    let copy = game.clone();
    assert_eq!(snapshot(&copy), snapshot(&game));
}

#[test]
fn effect_of_a_new_chain_keeps_the_lasting_reversal() {
    let mut effect = Effect::new();
    effect.revoluted = true;
    effect.turn_revoluted = true;
    effect.is_step = true;
    effect.river_size = Some(2);
    effect.effect_limits.insert(3);
    effect.suit_limits.insert(Suit::Heart);
    let copy = effect.clone();
    assert!(copy.effect_limits.contains(&3));
    assert_eq!(copy.river_size, Some(2));
    let next = Effect::new_turn(effect);
    assert!(next.revoluted);
    assert!(!next.turn_revoluted);
    assert!(!next.is_step);
    assert_eq!(next.river_size, None);
    assert!(next.effect_limits.is_empty());
    assert!(next.suit_limits.is_empty());
}

#[test]
fn fields_by_name() {
    let mut game = table(&[("a", &["3h"]), ("b", &["4h"])]);
    assert_eq!(game.field(&FieldKey::Hands("b".to_string())), Ok(&Deck::new(cs(&["4h"]))));
    assert_eq!(game.field(&FieldKey::Trushes), Ok(&Deck::new(vec![])));
    assert_eq!(
        game.field(&FieldKey::Hands("z".to_string())),
        Err(GameError::FieldNotFound)
    );
    game.field_mut(&FieldKey::Excluded).unwrap().0.push(c("5h"));
    assert_eq!(game.excluded, Deck::new(cs(&["5h"])));
    game.field_mut(&FieldKey::Hands("a".to_string())).unwrap().0.push(c("6h"));
    assert_eq!(game.hands[0], Deck::new(cs(&["3h", "6h"])));
    assert!(game.field_mut(&FieldKey::Hands("z".to_string())).is_err());
    assert_eq!(FieldKey::Trushes.to_string(), "trushes");
    assert_eq!(FieldKey::Excluded.to_string(), "excluded");
    assert_eq!(FieldKey::Hands("a".to_string()).to_string(), "a");
}

#[test]
fn transfer_moves_cards_or_nothing() {
    let mut game = table(&[("a", &["3h", "4h", "3h"]), ("b", &["5h"])]);
    let a = FieldKey::Hands("a".to_string());
    let b = FieldKey::Hands("b".to_string());
    assert_eq!(game.transfer(&a, &b, cs(&["3h", "3h"])), Ok(()));
    assert_eq!(game.hands[0], Deck::new(cs(&["4h"])));
    assert_eq!(game.hands[1], Deck::new(cs(&["5h", "3h", "3h"])));
    let before = snapshot(&game);
    assert_eq!(game.transfer(&a, &b, cs(&["9h"])), Err(GameError::NotFound));
    assert_eq!(
        game.transfer(&a, &FieldKey::Hands("z".to_string()), cs(&["4h"])),
        Err(GameError::FieldNotFound)
    );
    assert_eq!(
        game.transfer(&FieldKey::Hands("z".to_string()), &a, cs(&[])),
        Err(GameError::FieldNotFound)
    );
    assert_eq!(snapshot(&game), before);
    assert_eq!(game.transfer(&b, &b, cs(&["5h"])), Ok(()));
    assert_eq!(game.hands[1], Deck::new(cs(&["3h", "3h", "5h"])));
    assert_eq!(game.take_cards(&b, &FieldKey::Trushes, cs(&["5h", "3h"])), Ok(()));
    assert_eq!(game.trushes, Deck::new(cs(&["3h", "5h"])));
}

#[test]
fn relative_player_counts_players_with_cards() {
    let game = table(&[("a", &["3h"]), ("b", &["4h"]), ("c", &["5h"])]);
    assert_eq!(game.active_player_ids(), vec!["a", "b", "c"]);
    assert_eq!(game.get_relative_player("a", 1), Ok("b".to_string()));
    assert_eq!(game.get_relative_player("a", -1), Ok("c".to_string()));
    assert_eq!(game.get_relative_player("a", 2), Ok("c".to_string()));
    assert_eq!(game.get_relative_player("a", 3), Ok("a".to_string()));
    assert_eq!(game.get_relative_player("a", 0), Ok("a".to_string()));
    assert_eq!(game.get_relative_player("b", -5), Ok("c".to_string()));
    assert_eq!(game.get_relative_player("c", 100), Ok("a".to_string()));
    assert_eq!(game.get_relative_player("c", i32::MIN), Ok("a".to_string()));
    assert_eq!(game.get_relative_player("c", i32::MAX), Ok("a".to_string()));
    assert_eq!(game.get_relative_player("z", 1), Err(GameError::FieldNotFound));
}

#[test]
fn relative_player_from_a_seat_without_cards() {
    let game = table(&[("a", &["3h"]), ("b", &[]), ("c", &["5h"]), ("d", &[])]);
    assert_eq!(game.active_player_ids(), vec!["a", "c"]);
    assert_eq!(game.active_seats(), vec![0, 2]);
    assert_eq!(game.get_relative_player("b", 1), Ok("c".to_string()));
    assert_eq!(game.get_relative_player("b", 0), Ok("c".to_string()));
    assert_eq!(game.get_relative_player("b", 2), Ok("a".to_string()));
    assert_eq!(game.get_relative_player("b", -1), Ok("a".to_string()));
    assert_eq!(game.get_relative_player("b", -2), Ok("c".to_string()));
    assert_eq!(game.get_relative_player("d", 1), Ok("a".to_string()));
    assert_eq!(game.get_relative_player("d", -1), Ok("c".to_string()));
    assert_eq!(game.get_relative_player("a", 1), Ok("c".to_string()));
    let nobody = table(&[("a", &[]), ("b", &[])]);
    assert_eq!(nobody.get_relative_player("a", 1), Err(GameError::MatchEnded));
}

#[test]
fn first_play_of_a_chain_is_free() {
    let mut game = table(&[("a", &["3h"]), ("b", &["4h"])]);
    for play in [
        cs(&["3h"]),
        cs(&["3h", "3d", "3s", "3c"]),
        cs(&["joker", "2h"]),
        cs(&["joker"]),
        cs(&["Kh", "Kd", "Ks", "Kc", "joker", "joker"]),
    ] {
        let validate = ValidateServe { serves: play };
        assert_eq!(validate.on("a".to_string(), &mut game), Ok(()));
    }
    let validate = ValidateServe { serves: cs(&["3h", "4h"]) };
    assert_eq!(validate.on("a".to_string(), &mut game), Err(GameError::NotSameNumber));
}

#[test]
fn four_cards_turn_the_order_round() {
    let mut game = table(&[("a", &["3h"]), ("b", &["4h"])]);
    let four = EffectCard { serves: cs(&["6h", "6d", "6s", "6c"]) };
    let three = EffectCard { serves: cs(&["6h", "6d", "6s"]) };
    assert_eq!(three.on("a".to_string(), &mut game), Ok(()));
    assert!(!game.effect.revoluted);
    assert_eq!(game.effect.river_size, Some(3));
    assert_eq!(four.on("a".to_string(), &mut game), Ok(()));
    assert!(game.effect.revoluted);
    assert_eq!(game.effect.river_size, Some(4));
    assert_eq!(three.on("a".to_string(), &mut game), Ok(()));
    assert!(game.effect.revoluted);
    assert_eq!(four.on("a".to_string(), &mut game), Ok(()));
    assert!(!game.effect.revoluted);
    assert_eq!(four.on("b".to_string(), &mut game), Ok(()));
    assert!(game.effect.revoluted);
    assert_eq!(four.on("a".to_string(), &mut game), Ok(()));
    assert!(!game.effect.revoluted);
    assert_eq!(four.on("z".to_string(), &mut game), Err(GameError::FieldNotFound));
    assert!(!game.effect.revoluted);
    game.effect.revoluted = true;
    assert_eq!(game.flush_river(&FieldKey::Trushes), Ok(()));
    assert!(game.effect.revoluted);
    assert_eq!(game.effect.river_size, None);
}

#[test]
fn reversed_order_asks_for_weaker_cards() {
    let mut game = table(&[("a", &["3h"]), ("b", &["4h"])]);
    game.river.push(cs(&["8h"]));
    game.effect.river_size = Some(1);
    game.effect.revoluted = true;
    let weaker = ValidateServe { serves: cs(&["5h"]) };
    let stronger = ValidateServe { serves: cs(&["Th"]) };
    assert_eq!(weaker.on("a".to_string(), &mut game), Ok(()));
    assert_eq!(stronger.on("a".to_string(), &mut game), Err(GameError::MustBeatTop));
    game.effect.turn_revoluted = true;
    assert_eq!(weaker.on("a".to_string(), &mut game), Err(GameError::MustBeatTop));
    assert_eq!(stronger.on("a".to_string(), &mut game), Ok(()));
    let level = ValidateServe { serves: cs(&["8d"]) };
    assert_eq!(level.on("a".to_string(), &mut game), Err(GameError::MustBeatTop));
}

#[test]
fn nines_turn_the_size_between_one_and_three() {
    let mut game = table(&[("a", &["3h"]), ("b", &["4h"])]);
    game.river.push(cs(&["8h"]));
    game.effect.river_size = Some(1);
    let three = ValidateServe { serves: cs(&["9h", "9d", "9s"]) };
    let one = ValidateServe { serves: cs(&["9h"]) };
    assert_eq!(three.on("a".to_string(), &mut game), Ok(()));
    assert_eq!(one.on("a".to_string(), &mut game), Err(GameError::SizeMismatch));
    game.effect.effect_limits.insert(9);
    assert_eq!(three.on("a".to_string(), &mut game), Err(GameError::SizeMismatch));
    assert_eq!(one.on("a".to_string(), &mut game), Ok(()));
    game.effect.effect_limits.clear();
    game.river.push(cs(&["8h", "8d", "8s"]));
    game.effect.river_size = Some(3);
    assert_eq!(one.on("a".to_string(), &mut game), Ok(()));
    assert_eq!(three.on("a".to_string(), &mut game), Err(GameError::SizeMismatch));
    game.effect.river_size = None;
    assert_eq!(one.on("a".to_string(), &mut game), Err(GameError::SizeMismatch));
    let mut effect = Effect::new();
    apply_play(&mut effect, &cs(&["9h"]));
    assert_eq!(effect.river_size, Some(3));
    apply_play(&mut effect, &cs(&["9h", "9d", "9c"]));
    assert_eq!(effect.river_size, Some(1));
    apply_play(&mut effect, &cs(&["9h", "9d"]));
    assert_eq!(effect.river_size, Some(2));
}

#[test]
fn queens_lock_suits_and_ask_for_steps() {
    let mut game = table(&[("a", &["Qh", "3s"]), ("b", &["Ks", "Kh", "Ah"])]);
    game.effect.effect_limits.insert(1);
    assert_eq!(serve(&mut game, "a", &["Qh"]), Ok(()));
    assert!(game.effect.is_step);
    assert!(game.effect.suit_limits.contains(Suit::Heart));
    assert!(!game.effect.suit_limits.contains(Suit::Spade));
    assert_eq!(game.current, Some("b".to_string()));
    let before = snapshot(&game);
    pick(&mut game, "b", &["Ks"]);
    assert_eq!(Serve.on("b".to_string(), &mut game), Err(GameError::SuitMismatch));
    pick(&mut game, "b", &["Ks"]);
    assert_eq!(snapshot(&game), before);
    pick(&mut game, "b", &["Ah"]);
    assert_eq!(Serve.on("b".to_string(), &mut game), Err(GameError::MustStep));
    pick(&mut game, "b", &["Ah"]);
    assert_eq!(serve(&mut game, "b", &["Kh"]), Ok(()));
    assert_eq!(game.river, vec![cs(&["Qh"]), cs(&["Kh"])]);
}

#[test]
fn rules_of_three_and_ten_and_jack() {
    let mut game = table(&[("a", &["3h"]), ("b", &["4h"])]);
    assert_eq!(EffectCard { serves: cs(&["Th"]) }.on("a".to_string(), &mut game), Ok(()));
    for n in 1u8..=9 {
        assert!(game.effect.effect_limits.contains(&n));
    }
    assert!(!game.effect.effect_limits.contains(&10));
    assert_eq!(EffectCard { serves: cs(&["Jh"]) }.on("a".to_string(), &mut game), Ok(()));
    assert!(game.effect.turn_revoluted);
    assert_eq!(EffectCard { serves: cs(&["3h"]) }.on("a".to_string(), &mut game), Ok(()));
    assert_eq!(game.effect.effect_limits.len(), 9);
    game.effect.effect_limits.clear();
    assert_eq!(EffectCard { serves: cs(&["3h"]) }.on("a".to_string(), &mut game), Ok(()));
    assert_eq!(game.effect.effect_limits.len(), 13);
    assert_eq!(EffectCard { serves: cs(&["Qh"]) }.on("a".to_string(), &mut game), Ok(()));
    assert!(!game.effect.is_step);
    let before = snapshot(&game);
    game.effect.effect_limits.clear();
    assert_eq!(
        EffectCard { serves: cs(&["joker"]) }.on("a".to_string(), &mut game),
        Err(GameError::InvalidRank)
    );
    assert_eq!(
        EffectCard { serves: cs(&["6h"]) }.on("z".to_string(), &mut game),
        Err(GameError::FieldNotFound)
    );
    game.effect.effect_limits.extend(1u8..=13);
    assert_eq!(snapshot(&game), before);
}

#[test]
fn four_seven_and_king_open_questions() {
    let mut game = table(&[("a", &["3h"]), ("b", &[])]);
    assert_eq!(EffectCard { serves: cs(&["4h"]) }.on("a".to_string(), &mut game), Ok(()));
    assert!(game.prompt.is_empty());
    game.trushes = Deck::new(cs(&["5h"]));
    assert_eq!(EffectCard { serves: cs(&["4h"]) }.on("b".to_string(), &mut game), Ok(()));
    assert!(game.prompt.is_empty());
    assert_eq!(EffectCard { serves: cs(&["4h"]) }.on("a".to_string(), &mut game), Ok(()));
    assert_eq!(
        game.prompt,
        vec![Prompt {
            kind: PromptKind::Select4,
            player_ids: vec!["a".to_string()],
            question: "select cards from trushes".to_string(),
            options: vec!["ok".to_string()],
        }]
    );
    assert_eq!(EffectCard { serves: cs(&["7h"]) }.on("a".to_string(), &mut game), Ok(()));
    assert_eq!(game.prompt[1].kind, PromptKind::Select7);
    assert_eq!(game.prompt[1].question, "select cards from hands");
    assert_eq!(EffectCard { serves: cs(&["Kh"]) }.on("a".to_string(), &mut game), Ok(()));
    assert_eq!(game.prompt.len(), 2);
    game.excluded = Deck::new(cs(&["5d"]));
    assert_eq!(EffectCard { serves: cs(&["Kh"]) }.on("a".to_string(), &mut game), Ok(()));
    assert_eq!(game.prompt[2].kind, PromptKind::Select13);
    assert_eq!(game.prompt[2].question, "select cards from excluded");
    assert_eq!(game.prompt[2].clone(), game.prompt[2]);
}

#[test]
fn serve_refusals_leave_the_game_as_it_was() {
    let mut game = table(&[("a", &["3h", "4h", "joker"]), ("b", &["5h"])]);
    let before = snapshot(&game);
    assert_eq!(Serve.on("a".to_string(), &mut game), Err(GameError::EmptySelection));
    assert_eq!(Serve.on("b".to_string(), &mut game), Err(GameError::NotYourTurn));
    assert_eq!(Serve.on("z".to_string(), &mut game), Err(GameError::FieldNotFound));
    assert_eq!(Pass.on("a".to_string(), &mut game), Err(GameError::RiverEmpty));
    assert_eq!(Pass.on("b".to_string(), &mut game), Err(GameError::NotYourTurn));
    assert_eq!(snapshot(&game), before);
    game.selects[0] = cs(&["3h", "4h"]);
    assert_eq!(Serve.on("a".to_string(), &mut game), Err(GameError::NotSameNumber));
    game.selects[0] = cs(&["9h"]);
    assert_eq!(Serve.on("a".to_string(), &mut game), Err(GameError::NotFound));
    game.selects[0] = cs(&["joker"]);
    assert_eq!(Serve.on("a".to_string(), &mut game), Err(GameError::InvalidRank));
    assert_eq!(game.hands[0], Deck::new(cs(&["3h", "4h", "joker"])));
    assert!(game.river.is_empty());
    game.river.push(cs(&["Kh"]));
    game.effect.river_size = Some(1);
    game.selects[0] = cs(&["3h"]);
    assert_eq!(Serve.on("a".to_string(), &mut game), Err(GameError::MustBeatTop));
    assert_eq!(game.selects[0], cs(&["3h"]));
}

#[test]
fn the_last_card_ends_the_match() {
    let mut game = table(&[("a", &["6h"]), ("b", &["5h"])]);
    let before = snapshot(&game);
    game.selects[0] = cs(&["6h"]);
    assert_eq!(Serve.on("a".to_string(), &mut game), Err(GameError::MatchEnded));
    game.selects[0] = vec![];
    assert_eq!(snapshot(&game), before);
    let mut done = table(&[("a", &[]), ("b", &["5h"])]);
    done.river.push(cs(&["6h"]));
    assert_eq!(done.on_end_turn(), Err(GameError::MatchEnded));
    done.current = None;
    assert_eq!(done.on_end_turn(), Err(GameError::FieldNotFound));
    done.current = Some("z".to_string());
    assert_eq!(done.on_end_turn(), Err(GameError::FieldNotFound));
}

#[test]
fn a_player_out_of_cards_hands_the_turn_on() {
    let mut game = table(&[("a", &["6h"]), ("b", &["5h"]), ("c", &["7h"])]);
    assert_eq!(serve(&mut game, "a", &["6h"]), Ok(()));
    assert_eq!(game.current, Some("b".to_string()));
    assert_eq!(game.last_served_player_id, Some("a".to_string()));
    assert_eq!(game.hands[0], Deck::new(vec![]));
    assert_eq!(Pass.on("b".to_string(), &mut game), Ok(()));
    assert_eq!(game.current, Some("c".to_string()));
}

#[test]
fn eight_closes_the_chain_at_once() {
    let mut game = table(&[("a", &["8h", "3h"]), ("b", &["9h"])]);
    assert_eq!(serve(&mut game, "a", &["8h"]), Ok(()));
    assert_eq!(game.current, Some("a".to_string()));
    assert!(game.river.is_empty());
    assert_eq!(game.trushes, Deck::new(cs(&["8h"])));
    assert_eq!(game.effect.river_size, None);
    assert_eq!(game.top_rule(), None);
}

#[test]
fn two_sends_the_chain_to_the_excluded_pile() {
    let mut game = table(&[("a", &["2h", "3h", "6h"]), ("b", &["9h"])]);
    assert_eq!(serve(&mut game, "a", &["6h"]), Ok(()));
    assert_eq!(Pass.on("b".to_string(), &mut game), Ok(()));
    assert_eq!(game.trushes, Deck::new(cs(&["6h"])));
    assert_eq!(serve(&mut game, "a", &["2h"]), Ok(()));
    assert_eq!(game.top_rule(), Some(2));
    assert_eq!(game.river_cards(), cs(&["2h"]));
    assert_eq!(game.current, Some("b".to_string()));
    assert_eq!(Pass.on("b".to_string(), &mut game), Ok(()));
    assert_eq!(game.current, Some("a".to_string()));
    assert_eq!(game.excluded, Deck::new(cs(&["2h"])));
    assert_eq!(game.trushes, Deck::new(cs(&["6h"])));
    assert!(game.river.is_empty());
}

#[test]
fn five_passes_over_players() {
    let mut game = table(&[("a", &["5h", "5d", "3h"]), ("b", &["9h"]), ("c", &["Th"]), ("d", &["Jh"])]);
    assert_eq!(serve(&mut game, "a", &["5h"]), Ok(()));
    assert_eq!(game.current, Some("c".to_string()));
    let mut two = table(&[("a", &["5h", "5d", "3h"]), ("b", &["9h"]), ("c", &["Th"]), ("d", &["Jh"])]);
    assert_eq!(serve(&mut two, "a", &["5h", "5d"]), Ok(()));
    assert_eq!(two.current, Some("d".to_string()));
    let mut off = table(&[("a", &["5h", "5d", "3h"]), ("b", &["9h"]), ("c", &["Th"])]);
    off.effect.effect_limits.insert(5);
    assert_eq!(serve(&mut off, "a", &["5h"]), Ok(()));
    assert_eq!(off.current, Some("b".to_string()));
}

#[test]
fn select_picks_and_puts_back() {
    let mut game = table(&[("a", &["3h", "4h"]), ("b", &["5h"])]);
    pick(&mut game, "a", &["3h", "4h"]);
    assert_eq!(game.selects[0], cs(&["3h", "4h"]));
    pick(&mut game, "a", &["3h"]);
    assert_eq!(game.selects[0], cs(&["4h"]));
    pick(&mut game, "b", &["Kh"]);
    assert_eq!(game.selects[1], cs(&["Kh"]));
    let select = Select { field: "a".to_string(), card: c("3h") };
    assert_eq!(select.on("z".to_string(), &mut game), Err(GameError::FieldNotFound));
}

#[test]
fn an_open_question_must_be_answered_first() {
    let mut game = table(&[("a", &["3h", "4h"]), ("b", &["5h"])]);
    game.river.push(cs(&["4d"]));
    game.effect.river_size = Some(1);
    game.prompt.push(Prompt {
        kind: PromptKind::Select7,
        player_ids: vec!["a".to_string()],
        question: "select cards from hands".to_string(),
        options: vec!["ok".to_string()],
    });
    assert!(game.pending_for("a"));
    assert!(!game.pending_for("b"));
    assert!(!game.has_answered("a"));
    assert!(game.is_current("a"));
    assert!(holds_text(&game.prompt[0].player_ids, "a"));
    game.selects[0] = cs(&["3h"]);
    let before = snapshot(&game);
    assert_eq!(Serve.on("a".to_string(), &mut game), Err(GameError::PendingAnswerRequired));
    assert_eq!(Pass.on("a".to_string(), &mut game), Err(GameError::PendingAnswerRequired));
    let ok = Answer { answer: "ok".to_string() };
    let no = Answer { answer: "no".to_string() };
    assert_eq!(no.on("a".to_string(), &mut game), Err(GameError::InvalidAnswer));
    assert_eq!(ok.on("b".to_string(), &mut game), Err(GameError::InvalidAnswer));
    assert_eq!(ok.on("z".to_string(), &mut game), Err(GameError::InvalidAnswer));
    assert_eq!(snapshot(&game), before);
    assert_eq!(ok.on("a".to_string(), &mut game), Ok(()));
    assert_eq!(game.hands[0], Deck::new(cs(&["4h"])));
    assert_eq!(game.hands[1], Deck::new(cs(&["3h", "5h"])));
    assert!(game.prompt.is_empty());
    assert_eq!(ok.on("a".to_string(), &mut game), Err(GameError::InvalidAnswer));
}

#[test]
fn seven_hands_cards_to_the_player_on_the_right() {
    let mut game = table(&[("a", &["7h", "3h", "4h"]), ("b", &["9h"]), ("c", &["Th"])]);
    assert_eq!(serve(&mut game, "a", &["7h"]), Ok(()));
    assert_eq!(game.prompt.len(), 1);
    assert_eq!(game.prompt[0].kind, PromptKind::Select7);
    assert_eq!(game.current, Some("b".to_string()));
    pick(&mut game, "a", &["3h"]);
    assert_eq!(
        ValidatePromptSelect7.on("a".to_string(), &mut game),
        Ok(())
    );
    let ok = Answer { answer: "ok".to_string() };
    assert_eq!(ok.on("a".to_string(), &mut game), Ok(()));
    assert_eq!(game.hands[0], Deck::new(cs(&["4h"])));
    assert_eq!(game.hands[2], Deck::new(cs(&["3h", "Th"])));
    assert!(game.prompt.is_empty());
    assert_eq!(game.answers, vec![None, None, None]);
    assert!(game.selects[0].is_empty());
    assert_eq!(game.current, Some("b".to_string()));
}

#[test]
fn king_takes_cards_from_the_excluded_pile() {
    let mut game = table(&[("a", &["Kh", "3h"]), ("b", &["9h"])]);
    game.excluded = Deck::new(cs(&["2h", "2d"]));
    assert_eq!(serve(&mut game, "a", &["Kh"]), Ok(()));
    assert_eq!(game.prompt[0].kind, PromptKind::Select13);
    pick(&mut game, "a", &["9h"]);
    let ok = Answer { answer: "ok".to_string() };
    let before = snapshot(&game);
    assert_eq!(ok.on("a".to_string(), &mut game), Err(GameError::NotFound));
    assert_eq!(snapshot(&game), before);
    pick(&mut game, "a", &["9h", "2d"]);
    assert_eq!(ValidatePromptSelect13.on("a".to_string(), &mut game), Ok(()));
    assert_eq!(ValidatePromptSelect4.on("b".to_string(), &mut game), Err(GameError::InvalidAnswer));
    assert_eq!(ValidatePromptSelect4.on("z".to_string(), &mut game), Err(GameError::FieldNotFound));
    assert_eq!(ok.on("a".to_string(), &mut game), Ok(()));
    assert_eq!(game.excluded, Deck::new(cs(&["2h"])));
    assert_eq!(game.hands[0], Deck::new(cs(&["3h", "2d"])));
}

#[test]
fn steps_of_answers_one_by_one() {
    let mut game = table(&[("a", &["3h"]), ("b", &["9h"])]);
    game.trushes = Deck::new(cs(&["As"]));
    game.excluded = Deck::new(cs(&["Ad"]));
    game.selects[0] = cs(&["As"]);
    assert_eq!(AnswerPromptSelect4.on("a".to_string(), &mut game), Ok(()));
    assert_eq!(game.hands[0], Deck::new(cs(&["3h", "As"])));
    game.selects[0] = cs(&["Ad"]);
    assert_eq!(AnswerPromptSelect13.on("a".to_string(), &mut game), Ok(()));
    assert_eq!(game.hands[0], Deck::new(cs(&["3h", "As", "Ad"])));
    game.selects[0] = cs(&["3h"]);
    assert_eq!(AnswerPromptSelect7.on("a".to_string(), &mut game), Ok(()));
    assert_eq!(game.hands[1], Deck::new(cs(&["3h", "9h"])));
    assert_eq!(AnswerPromptSelect4.on("z".to_string(), &mut game), Err(GameError::FieldNotFound));
    assert_eq!(AnswerPromptSelect7.on("z".to_string(), &mut game), Err(GameError::FieldNotFound));
    assert_eq!(
        AnswerPromptSelectOneChance.on("a".to_string(), &mut game),
        Err(GameError::RiverEmpty)
    );
    game.river.push(cs(&["Jh"]));
    assert_eq!(AnswerPromptSelectOneChance.on("b".to_string(), &mut game), Ok(()));
    assert!(game.effect.turn_revoluted);
    assert_eq!(game.last_served_player_id, Some("a".to_string()));
    assert_eq!(game.current, Some("b".to_string()));
}

fn contested() -> Game {
    let mut game = table(&[("a", &["7h", "3h"]), ("b", &["Ah", "4h"]), ("c", &["9h"])]);
    assert_eq!(serve(&mut game, "a", &["3h"]), Ok(()));
    game
}

#[test]
fn an_ace_in_another_hand_opens_the_question() {
    let game = contested();
    assert_eq!(
        game.prompt,
        vec![Prompt {
            kind: PromptKind::UseOneChance,
            player_ids: vec!["b".to_string()],
            question: "select A if use one chance".to_string(),
            options: vec!["serve".to_string(), "skip".to_string()],
        }]
    );
    assert_eq!(game.river, vec![cs(&["3h"])]);
    assert_eq!(game.hands[0], Deck::new(cs(&["7h"])));
    assert_eq!(game.current, Some("a".to_string()));
    assert_eq!(game.last_served_player_id, None);
    assert_eq!(game.effect.river_size, None);
    assert!(has_ace(&cs(&["4h", "Ah"])));
    assert!(!has_ace(&cs(&["4h", "joker"])));
    let mut off = table(&[("a", &["7h", "3h"]), ("b", &["Ah", "4h"])]);
    off.effect.effect_limits.insert(1);
    assert_eq!(serve(&mut off, "a", &["7h"]), Ok(()));
    assert_eq!(off.prompt.len(), 1);
    assert_eq!(off.prompt[0].kind, PromptKind::Select7);
}

#[test]
fn a_contest_that_takes_effect_opens_a_chain_of_the_ace() {
    let mut game = contested();
    let serve_ace = Answer { answer: "serve".to_string() };
    assert_eq!(
        serve_ace.on_chance("b".to_string(), &mut game, true),
        Err(GameError::InvalidAnswer)
    );
    assert_eq!(
        ValidatePromptSelectOneChance { answer: "serve".to_string() }.on("b".to_string(), &mut game),
        Err(GameError::InvalidAnswer)
    );
    assert_eq!(
        ValidatePromptSelectOneChance { answer: "skip".to_string() }.on("b".to_string(), &mut game),
        Ok(())
    );
    pick(&mut game, "b", &["4h"]);
    assert_eq!(
        serve_ace.on_chance("b".to_string(), &mut game, true),
        Err(GameError::InvalidAnswer)
    );
    pick(&mut game, "b", &["4h", "Ah"]);
    assert_eq!(serve_ace.on_chance("b".to_string(), &mut game, true), Ok(()));
    assert_eq!(game.river, vec![cs(&["Ah"])]);
    assert_eq!(game.trushes, Deck::new(cs(&["3h"])));
    assert_eq!(game.hands[1], Deck::new(cs(&["4h"])));
    assert_eq!(game.current, Some("b".to_string()));
    assert_eq!(game.last_served_player_id, Some("b".to_string()));
    assert_eq!(game.effect.river_size, Some(1));
    assert!(game.effect.effect_limits.is_empty());
    assert!(game.prompt.is_empty());
    assert!(game.selects[1].is_empty());
    assert_eq!(game.answers, vec![None, None, None]);
}

#[test]
fn a_contest_that_fails_lets_the_play_stand() {
    let mut game = contested();
    pick(&mut game, "b", &["Ah"]);
    let serve_ace = Answer { answer: "serve".to_string() };
    assert_eq!(serve_ace.on_chance("b".to_string(), &mut game, false), Ok(()));
    assert_eq!(game.river, vec![cs(&["3h"])]);
    assert_eq!(game.hands[1], Deck::new(cs(&["Ah", "4h"])));
    assert_eq!(game.effect.river_size, Some(1));
    assert_eq!(game.effect.effect_limits.len(), 13);
    assert_eq!(game.last_served_player_id, Some("a".to_string()));
    assert_eq!(game.current, Some("b".to_string()));
    assert!(game.prompt.is_empty());
    assert!(game.selects[1].is_empty());
    let mut skipped = contested();
    let skip = Answer { answer: "skip".to_string() };
    assert_eq!(skip.on("b".to_string(), &mut skipped), Ok(()));
    assert_eq!(skipped.river, vec![cs(&["3h"])]);
    assert_eq!(skipped.current, Some("b".to_string()));
    assert_eq!(skipped.last_served_player_id, Some("a".to_string()));
    let mut drawn = contested();
    pick(&mut drawn, "b", &["Ah"]);
    assert_eq!(serve_ace.on("b".to_string(), &mut drawn), Ok(()));
    assert!(drawn.river == vec![cs(&["3h"])] || drawn.river == vec![cs(&["Ah"])]);
}

#[test]
fn chance_is_one_draw_in_as_many_as_hold_cards() {
    assert!(takes_effect(0, 3));
    assert!(!takes_effect(1, 3));
    assert!(!takes_effect(2, 3));
    assert!(takes_effect(3, 3));
    assert!(takes_effect(7, 1));
    assert!(!takes_effect(0, 0));
}

#[test]
fn all_asked_must_answer_before_the_question_closes() {
    let mut game = table(&[("a", &["3h", "7h"]), ("b", &["Ah"]), ("c", &["As", "5h"])]);
    assert_eq!(serve(&mut game, "a", &["3h"]), Ok(()));
    assert_eq!(game.prompt[0].player_ids, vec!["b".to_string(), "c".to_string()]);
    let skip = Answer { answer: "skip".to_string() };
    assert_eq!(skip.on_chance("c".to_string(), &mut game, true), Ok(()));
    assert_eq!(game.answers, vec![None, None, Some("skip".to_string())]);
    assert_eq!(game.prompt.len(), 1);
    assert_eq!(skip.on_chance("c".to_string(), &mut game, true), Err(GameError::InvalidAnswer));
    assert_eq!(skip.on_chance("b".to_string(), &mut game, true), Ok(()));
    assert!(game.prompt.is_empty());
    assert_eq!(game.answers, vec![None, None, None]);
    assert_eq!(game.current, Some("b".to_string()));
    assert_eq!(game.last_served_player_id, Some("a".to_string()));
}

#[test]
fn events_are_dispatched_to_the_operations() {
    let mut game = table(&[("a", &["3h", "4h"]), ("b", &["5h"])]);
    let select = Event::Select { field: "a".to_string(), card: "3h".to_string() };
    assert!(matches!(handle_event("a".to_string(), &select, &mut game), Ok(Event::Nothing)));
    assert_eq!(game.selects[0], cs(&["3h"]));
    let bad = Event::Select { field: "a".to_string(), card: "3x".to_string() };
    assert!(matches!(
        handle_event("a".to_string(), &bad, &mut game),
        Err(EventError::Card(ParseError::InvalidSuit))
    ));
    assert!(matches!(handle_event("a".to_string(), &Event::Serve, &mut game), Ok(Event::Nothing)));
    assert_eq!(game.river, vec![cs(&["3h"])]);
    assert!(matches!(
        handle_event("a".to_string(), &Event::Pass, &mut game),
        Err(EventError::Game(GameError::NotYourTurn))
    ));
    assert!(matches!(handle_event("b".to_string(), &Event::Pass, &mut game), Ok(Event::Nothing)));
    assert!(game.river.is_empty());
    let answer = Event::Answer { option: "ok".to_string() };
    assert!(matches!(
        handle_event_with("a".to_string(), &answer, &mut game, true),
        Err(EventError::Game(GameError::InvalidAnswer))
    ));
    let before = snapshot(&game);
    assert!(matches!(handle_event("a".to_string(), &Event::Exit, &mut game), Ok(Event::Nothing)));
    assert!(matches!(handle_event("a".to_string(), &Event::Nothing, &mut game), Ok(Event::Nothing)));
    let started = Event::PluginStarted { state_id: "s".to_string() };
    assert!(matches!(handle_event("a".to_string(), &started, &mut game), Ok(Event::Nothing)));
    assert_eq!(snapshot(&game), before);
    assert!(matches!(
        handle_event("a".to_string(), &Event::Distribute, &mut game),
        Ok(Event::Nothing)
    ));
    assert_eq!(game.hands[0].0.len() + game.hands[1].0.len(), 54);
    let mut nobody = Game::new(vec![]);
    assert_eq!(Distribute.on("a".to_string(), &mut nobody), Err(GameError::PlayersEmpty));
    assert!(matches!(
        handle_event("a".to_string(), &Event::Distribute, &mut nobody),
        Err(EventError::Game(GameError::PlayersEmpty))
    ));
}

#[test]
fn deal_sorts_each_hand() {
    let mut game = Game::new(vec!["a".to_string(), "b".to_string()]);
    let deck = Deck::new(cs(&["2h", "Kh", "3h", "joker", "Ah", "4h", "3d"]));
    assert_eq!(Distribute.deal(&mut game, &deck), Ok(()));
    assert_eq!(game.hands[0], Deck::new(cs(&["3h", "3d", "Ah", "2h"])));
    assert_eq!(game.hands[1], Deck::new(cs(&["4h", "Kh", "joker"])));
    assert_eq!(game.current, Some("a".to_string()));
}

#[test]
fn a_player_sees_the_own_hand_and_the_piles() {
    let mut game = table(&[("a", &["3h", "Kc"]), ("b", &["5h"])]);
    game.trushes = Deck::new(cs(&["As"]));
    game.river.push(cs(&["4h"]));
    game.river.push(cs(&["joker"]));
    game.selects[0] = cs(&["Kc", "As"]);
    game.prompt.push(Prompt {
        kind: PromptKind::Select4,
        player_ids: vec!["a".to_string()],
        question: "select cards from trushes".to_string(),
        options: vec!["ok".to_string()],
    });
    let ctx = Ctx::new(&game, "a".to_string()).unwrap();
    assert!(ctx.is_current);
    assert_eq!(ctx.current, Some("a".to_string()));
    assert!(ctx.show_prompt);
    assert_eq!(ctx.prompt, game.prompt);
    assert_eq!(ctx.hands.len(), 2);
    assert_eq!(ctx.hands[0].picture, '\u{1F0B3}');
    assert_eq!(ctx.hands[0].text, "3h");
    assert!(!ctx.hands[0].selected);
    assert_eq!(ctx.hands[1].text, "Kc");
    assert!(ctx.hands[1].selected);
    assert_eq!(ctx.trushes.len(), 1);
    assert!(ctx.trushes[0].selected);
    assert!(ctx.excluded.is_empty());
    assert_eq!(ctx.river.len(), 1);
    assert_eq!(ctx.river[0].text, "joker");
    assert_eq!(ctx.river[0].picture, '\u{1F0DF}');
    assert!(!ctx.river[0].selected);
    let other = Ctx::new(&game, "b".to_string()).unwrap();
    assert!(!other.is_current);
    assert!(!other.show_prompt);
    assert_eq!(other.hands.len(), 1);
    assert!(!other.trushes[0].selected);
    assert_eq!(Ctx::new(&game, "z".to_string()).err(), Some(GameError::FieldNotFound));
    game.excluded = Deck::new(vec![Card::Number(Suit::Clover, 200)]);
    assert_eq!(Ctx::new(&game, "a".to_string()).err(), Some(GameError::InvalidRank));
}

#[test]
fn a_play_is_completed_while_another_player_owes_an_answer() {
    let mut game = table(&[("a", &["6h", "3h"]), ("b", &["9h"]), ("c", &["Th"])]);
    game.trushes = Deck::new(cs(&["5d"]));
    game.prompt.push(Prompt {
        kind: PromptKind::Select4,
        player_ids: vec!["c".to_string()],
        question: "select cards from trushes".to_string(),
        options: vec!["ok".to_string()],
    });
    assert_eq!(serve(&mut game, "a", &["6h"]), Ok(()));
    assert_eq!(game.effect.river_size, Some(1));
    assert_eq!(game.last_served_player_id, Some("a".to_string()));
    assert_eq!(game.current, Some("b".to_string()));
    assert_eq!(game.prompt.len(), 1);
    assert_eq!(Pass.on("b".to_string(), &mut game), Ok(()));
    assert_eq!(Pass.on("c".to_string(), &mut game), Err(GameError::PendingAnswerRequired));
    pick(&mut game, "c", &["5d"]);
    assert_eq!(Answer { answer: "ok".to_string() }.on("c".to_string(), &mut game), Ok(()));
    assert_eq!(game.hands[2], Deck::new(cs(&["5d", "Th"])));
    assert_eq!(Pass.on("c".to_string(), &mut game), Ok(()));
    assert_eq!(game.current, Some("a".to_string()));
    assert_eq!(game.trushes, Deck::new(cs(&["6h"])));
}

fn count(game: &Game) -> Vec<String> {
    let mut all: Vec<String> = Vec::new();
    for hand in game.hands.iter() {
        all.extend(hand.0.iter().map(|c| c.to_string()));
    }
    all.extend(game.trushes.0.iter().map(|c| c.to_string()));
    all.extend(game.excluded.0.iter().map(|c| c.to_string()));
    for play in game.river.iter() {
        all.extend(play.iter().map(|c| c.to_string()));
    }
    all.sort();
    all
}

#[test]
fn no_operation_makes_or_loses_a_card() {
    let mut game = table(&[("a", &["4h", "3h", "2h"]), ("b", &["Ah", "9h"]), ("c", &["Th", "7d"])]);
    game.trushes = Deck::new(cs(&["5d", "5s"]));
    let cards = count(&game);
    assert_eq!(serve(&mut game, "a", &["3h"]), Ok(()));
    assert_eq!(count(&game), cards);
    pick(&mut game, "b", &["Ah"]);
    assert_eq!(
        Answer { answer: "serve".to_string() }.on_chance("b".to_string(), &mut game, true),
        Ok(())
    );
    assert_eq!(count(&game), cards);
    assert_eq!(Pass.on("b".to_string(), &mut game), Ok(()));
    assert_eq!(count(&game), cards);
    assert_eq!(game.current, Some("b".to_string()));
    assert!(game.river.is_empty());
    assert_eq!(serve(&mut game, "b", &["9h"]), Ok(()));
    assert_eq!(game.current, Some("c".to_string()));
    assert_eq!(count(&game), cards);
    let mut next = table(&[("a", &["4h", "3h", "2h"]), ("b", &["6h"]), ("c", &["Kh", "7d"])]);
    next.trushes = Deck::new(cs(&["5d", "5s"]));
    let cards = count(&next);
    assert_eq!(serve(&mut next, "a", &["4h"]), Ok(()));
    assert_eq!(next.prompt.len(), 1);
    pick(&mut next, "a", &["5s"]);
    assert_eq!(Answer { answer: "ok".to_string() }.on("a".to_string(), &mut next), Ok(()));
    assert_eq!(next.hands[0], Deck::new(cs(&["3h", "5s", "2h"])));
    assert_eq!(count(&next), cards);
    assert_eq!(serve(&mut next, "b", &["6h"]), Ok(()));
    assert_eq!(serve(&mut next, "c", &["Kh"]), Ok(()));
    assert_eq!(serve(&mut next, "a", &["2h"]), Ok(()));
    assert_eq!(Pass.on("c".to_string(), &mut next), Ok(()));
    assert_eq!(next.excluded, Deck::new(cs(&["4h", "6h", "Kh", "2h"])));
    assert_eq!(count(&next), cards);
}

#[test]
fn events_name_their_operations() {
    assert!(matches!(into_event_handler(&Event::Distribute), Ok(Some(Handler::Distribute(_)))));
    assert!(matches!(into_event_handler(&Event::Serve), Ok(Some(Handler::Serve(_)))));
    assert!(matches!(into_event_handler(&Event::Pass), Ok(Some(Handler::Pass(_)))));
    assert!(matches!(into_event_handler(&Event::Exit), Ok(None)));
    assert!(matches!(into_event_handler(&Event::Nothing), Ok(None)));
    let launch = Event::LaunchPlugin { plugin_name: "p".to_string() };
    assert!(matches!(into_event_handler(&launch), Ok(None)));
    let select = Event::Select { field: "hands".to_string(), card: "Qd".to_string() };
    match into_event_handler(&select) {
        Ok(Some(Handler::Select(s))) => {
            assert_eq!(s.field, "hands");
            assert_eq!(s.card, Card::Number(Suit::Diamond, 12));
        }
        _ => panic!("a select event asks for a selection"),
    }
    let bad = Event::Select { field: "hands".to_string(), card: "".to_string() };
    assert!(matches!(into_event_handler(&bad), Err(ParseError::InvalidRank)));
    let answer = Event::Answer { option: "skip".to_string() };
    match into_event_handler(&answer) {
        Ok(Some(Handler::Answer(a))) => assert_eq!(a.answer, "skip"),
        _ => panic!("an answer event asks for an answer"),
    }
    let mut game = table(&[("a", &["6h", "3h"]), ("b", &["9h"])]);
    let pick = Handler::Select(Select { field: "hands".to_string(), card: c("6h") });
    assert_eq!(pick.on_chance("a".to_string(), &mut game, false), Ok(()));
    assert_eq!(Handler::Serve(Serve).on_chance("a".to_string(), &mut game, false), Ok(()));
    assert_eq!(
        Handler::Pass(Pass).on_chance("a".to_string(), &mut game, false),
        Err(GameError::NotYourTurn)
    );
    assert_eq!(game.river, vec![cs(&["6h"])]);
}
