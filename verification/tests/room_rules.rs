use career_poker::card::{Card, Suit};
use career_poker::deck::Deck;
use career_poker::effect::{
    copy_ranks, effect_10, effect_11, effect_12, effect_13, effect_2, effect_3, effect_4,
    effect_5, effect_7, effect_8, effect_9, effect_card, effect_one_chance, effect_revolution,
    insert_ranks, servable_9,
};
use career_poker::error::GameError;
use career_poker::mock::{cancel, debug, rand, reserve};
use career_poker::state::{refusal, servable, will_flush, Action, CareerPokerState};
use career_poker::text_map::TextMap;
use std::collections::HashSet;

fn c(text: &str) -> Card {
    Card::try_from(text).unwrap()
}

fn cs(texts: &[&str]) -> Vec<Card> {
    texts.iter().map(|t| c(t)).collect()
}

fn room(hands: &[(&str, &[&str])]) -> CareerPokerState {
    let mut state = CareerPokerState::new("room".to_string());
    for (player, cards) in hands {
        state.join(player.to_string());
        state.fields.insert(player.to_string(), Deck::new(cs(cards)));
    }
    state
}

fn pile(state: &CareerPokerState, name: &str) -> Vec<Card> {
    state.fields.get(name).unwrap().0.clone()
}

#[test]
fn text_map_keeps_the_last_value_of_a_key() {
    let mut map: TextMap<String> = TextMap::new();
    assert!(!map.contains_key("a"));
    assert_eq!(map.get("a"), None);
    map.insert("a".to_string(), "x".to_string());
    map.insert("b".to_string(), "y".to_string());
    map.insert("a".to_string(), "z".to_string());
    assert_eq!(map.get("a"), Some(&"z".to_string()));
    assert_eq!(map.get("b"), Some(&"y".to_string()));
    assert_eq!(map.entries.len(), 2);
    assert_eq!(map.find("b"), Some(0));
    map.entries.push(("b".to_string(), "w".to_string()));
    assert_eq!(map.get("b"), Some(&"w".to_string()));
    map.remove("b");
    assert_eq!(map.get("b"), None);
    assert!(map.contains_key("a"));
    map.remove("q");
    assert_eq!(map.entries.len(), 1);
}

#[test]
fn host_stand_ins() {
    assert_eq!(
        reserve("a".to_string(), "room".to_string(), "flush".to_string(), 10),
        "dummy"
    );
    assert_eq!(will_flush("a".to_string(), "room".to_string(), "trushes".to_string()), "dummy");
    cancel("room".to_string(), "dummy".to_string());
    debug("nothing".to_string());
    let draws: HashSet<u32> = (0..16).map(|_| rand()).collect();
    assert!(draws.len() > 1);
}

#[test]
fn rank_sets() {
    let mut set: HashSet<u8> = HashSet::new();
    set.insert(200);
    insert_ranks(&mut set, 1, 10);
    assert_eq!(set.len(), 10);
    assert!(set.contains(&1));
    assert!(set.contains(&9));
    assert!(!set.contains(&10));
    insert_ranks(&mut set, 5, 5);
    assert_eq!(set.len(), 10);
    let copy = copy_ranks(&set);
    assert_eq!(copy, set);
}

#[test]
fn a_new_room_has_the_two_piles() {
    let state = CareerPokerState::new("r".to_string());
    assert_eq!(state.room_id, "r");
    assert_eq!(pile(&state, "trushes"), vec![]);
    assert_eq!(pile(&state, "excluded"), vec![]);
    assert!(state.players.is_empty());
    assert_eq!(state.current, None);
    assert_eq!(CareerPokerState::default().room_id, "");
    let copy = state.clone();
    assert_eq!(format!("{:?}", copy), format!("{:?}", state));
}

#[test]
fn players_join_and_leave() {
    let mut state = CareerPokerState::new("r".to_string());
    state.join("a".to_string());
    state.join("b".to_string());
    state.join("a".to_string());
    assert_eq!(state.players, vec!["a".to_string(), "b".to_string()]);
    state.fields.insert("a".to_string(), Deck::new(cs(&["3h"])));
    state.leave("a".to_string());
    assert_eq!(state.players, vec!["b".to_string()]);
    assert!(!state.fields.contains_key("a"));
    state.leave("z".to_string());
    assert_eq!(state.players, vec!["b".to_string()]);
    assert_eq!(state.seat_of("b"), Some(0));
    assert_eq!(state.seat_of("a"), None);
}

#[test]
fn relative_player_in_a_room_skips_empty_hands() {
    let state = room(&[("a", &["3h"]), ("b", &[]), ("c", &["5h"])]);
    assert_eq!(state.get_relative_player("a", 1), Some("c".to_string()));
    assert_eq!(state.get_relative_player("a", 0), Some("a".to_string()));
    assert_eq!(state.get_relative_player("b", 0), Some("c".to_string()));
    assert_eq!(state.get_relative_player("a", -1), Some("c".to_string()));
    assert_eq!(state.get_relative_player("a", -2), Some("c".to_string()));
    assert_eq!(state.get_relative_player("a", 3), Some("a".to_string()));
    assert_eq!(state.get_relative_player("a", 4), Some("c".to_string()));
    assert_eq!(state.get_relative_player("z", 1), None);
    assert_eq!(state.relative_from("a", 1_000_000_000_000), Some("c".to_string()));
    let empty = room(&[("a", &[]), ("b", &[])]);
    assert_eq!(empty.get_relative_player("a", 1), None);
    assert_eq!(empty.get_relative_player("a", 7), None);
}

#[test]
fn servable_in_a_room() {
    let mut state = room(&[("a", &["3h"]), ("b", &["4h"])]);
    assert!(servable(&state, &cs(&["3h", "3d"])));
    assert!(!servable(&state, &cs(&["3h", "4d"])));
    assert_eq!(refusal(&state, &cs(&["3h", "4d"])), Some(GameError::NotSameNumber));
    state.river.push(Deck::new(cs(&["8h"])));
    assert_eq!(refusal(&state, &cs(&["Th"])), Some(GameError::SizeMismatch));
    state.effect.river_size = Some(1);
    assert_eq!(refusal(&state, &cs(&["Th"])), None);
    assert_eq!(refusal(&state, &cs(&["7h"])), Some(GameError::MustBeatTop));
    assert_eq!(refusal(&state, &cs(&["Th", "Td"])), Some(GameError::SizeMismatch));
    assert_eq!(refusal(&state, &cs(&["9h", "9d"])), Some(GameError::SizeMismatch));
    assert_eq!(refusal(&state, &cs(&["9h"])), Some(GameError::SizeMismatch));
    assert_eq!(refusal(&state, &cs(&["9h", "9d", "9s"])), None);
    assert!(servable(&state, &cs(&["9h", "9d", "9s"])));
    assert!(!servable(&state, &cs(&["9h"])));
    assert!(servable_9(&state, &cs(&["9h", "9d", "9s"])));
    assert!(!servable_9(&state, &cs(&["9h"])));
    assert!(!servable_9(&state, &cs(&["9h", "9d"])));
    state.effect.river_size = Some(3);
    assert!(servable_9(&state, &cs(&["9h"])));
    assert!(!servable_9(&state, &cs(&["9h", "9d", "9s"])));
    state.effect.river_size = Some(2);
    assert!(servable_9(&state, &cs(&["9h", "9d"])));
    assert!(!servable_9(&state, &cs(&["9h"])));
    state.effect.river_size = Some(1);
    state.effect.effect_limits.insert(9);
    assert_eq!(refusal(&state, &cs(&["9h"])), None);
    assert_eq!(refusal(&state, &cs(&["9h", "9d", "9s"])), Some(GameError::SizeMismatch));
    state.effect.effect_limits.clear();
    state.effect.is_step = true;
    assert_eq!(refusal(&state, &cs(&["Th"])), Some(GameError::MustStep));
    assert_eq!(refusal(&state, &cs(&["9h", "9d", "9s"])), None);
    state.effect.suit_limits.insert(Suit::Spade);
    assert_eq!(refusal(&state, &cs(&["9s", "9d", "9c"])), Some(GameError::SuitMismatch));
    assert_eq!(refusal(&state, &cs(&["9s", "9d", "9h"])), None);
    state.effect.revoluted = true;
    assert_eq!(refusal(&state, &cs(&["9h", "9d", "9s"])), Some(GameError::MustBeatTop));
}

#[test]
fn flush_moves_the_river_to_a_pile() {
    let mut state = room(&[("a", &["3h"]), ("b", &["4h"])]);
    state.river = vec![Deck::new(cs(&["5h", "5d"])), Deck::new(cs(&["6h", "6d"]))];
    state.effect.river_size = Some(2);
    state.effect.revoluted = true;
    state.effect.is_step = true;
    state.last_served_player_id = Some("b".to_string());
    assert_eq!(state.river_cards(), cs(&["5h", "5d", "6h", "6d"]));
    assert_eq!(state.flush("nowhere".to_string()), Err(GameError::FieldNotFound));
    assert_eq!(state.river.len(), 2);
    assert_eq!(state.flush("excluded".to_string()), Ok(()));
    assert_eq!(pile(&state, "excluded"), cs(&["5h", "5d", "6h", "6d"]));
    assert!(state.river.is_empty());
    assert_eq!(state.current, Some("b".to_string()));
    assert!(state.effect.revoluted);
    assert!(!state.effect.is_step);
    assert_eq!(state.effect.river_size, None);
}

#[test]
fn next_reserves_the_flush_when_the_chain_comes_round() {
    let mut state = room(&[("a", &["3h"]), ("b", &["4h"])]);
    state.last_served_player_id = Some("a".to_string());
    state.next("a");
    assert_eq!(state.current, Some("b".to_string()));
    assert_eq!(state.will_flush_task_id, None);
    state.next("b");
    assert_eq!(state.current, Some("a".to_string()));
    assert_eq!(state.will_flush_task_id, Some("dummy".to_string()));
    let mut empty = room(&[("a", &[]), ("b", &[])]);
    empty.next("a");
    assert_eq!(empty.current, None);
    assert_eq!(empty.will_flush_task_id, Some("dummy".to_string()));
    let mut passing = room(&[("a", &["3h"]), ("b", &["4h"])]);
    assert_eq!(passing.pass("a".to_string()), Err(GameError::RiverEmpty));
    passing.river.push(Deck::new(cs(&["5h"])));
    assert_eq!(passing.pass("a".to_string()), Ok(()));
    assert_eq!(passing.current, Some("b".to_string()));
    passing.will_flush("a", "trushes");
    assert_eq!(passing.will_flush_task_id, Some("dummy".to_string()));
}

#[test]
fn transfer_in_a_room() {
    let mut state = room(&[("a", &["3h", "4h"]), ("b", &["5h"])]);
    assert_eq!(state.transfer("a", "b", &cs(&["3h"])), Ok(()));
    assert_eq!(pile(&state, "a"), cs(&["4h"]));
    assert_eq!(pile(&state, "b"), cs(&["5h", "3h"]));
    assert_eq!(state.transfer("a", "b", &cs(&["9h"])), Err(GameError::NotFound));
    assert_eq!(state.transfer("a", "b", &cs(&["4h", "4h"])), Err(GameError::NotFound));
    assert_eq!(state.transfer("a", "z", &cs(&["9h"])), Err(GameError::NotFound));
    assert_eq!(pile(&state, "a"), cs(&["4h"]));
    assert_eq!(pile(&state, "b"), cs(&["5h", "3h"]));
    assert_eq!(state.transfer("a", "z", &cs(&["4h"])), Err(GameError::FieldNotFound));
    assert_eq!(state.transfer("z", "a", &cs(&["4h"])), Err(GameError::FieldNotFound));
    assert_eq!(pile(&state, "a"), cs(&["4h"]));
    assert_eq!(state.pile("z"), vec![]);
    assert_eq!(state.pile("a"), cs(&["4h"]));
}

#[test]
fn rank_rules_in_a_room() {
    let mut state = room(&[("a", &["3h"]), ("b", &["4h"])]);
    let play = cs(&["6h", "6d", "6s", "6c"]);
    effect_revolution(&mut state, "a", &play);
    assert!(state.effect.revoluted);
    effect_revolution(&mut state, "a", &cs(&["6h"]));
    assert!(state.effect.revoluted);
    effect_10(&mut state, "a", &play);
    assert_eq!(state.effect.effect_limits.len(), 9);
    assert_eq!(state.current, Some("b".to_string()));
    effect_11(&mut state, "b", &play);
    assert!(state.effect.turn_revoluted);
    assert_eq!(state.current, Some("a".to_string()));
    effect_12(&mut state, "a", &cs(&["Qh", "Qd"]));
    assert!(state.effect.is_step);
    assert!(state.effect.suit_limits.contains(Suit::Heart));
    assert!(state.effect.suit_limits.contains(Suit::Diamond));
    effect_12(&mut state, "a", &cs(&["Qs"]));
    assert!(state.effect.suit_limits.contains(Suit::Heart));
    assert!(state.effect.suit_limits.contains(Suit::Spade));
    state.effect.river_size = Some(1);
    effect_9(&mut state, "a", &play);
    assert_eq!(state.effect.river_size, Some(1));
    state.effect.effect_limits.clear();
    effect_9(&mut state, "a", &play);
    assert_eq!(state.effect.river_size, Some(3));
    effect_3(&mut state, "a", &play);
    assert_eq!(state.effect.effect_limits.len(), 13);
    effect_11(&mut state, "a", &play);
    state.effect.turn_revoluted = false;
    effect_11(&mut state, "a", &play);
    assert!(!state.effect.turn_revoluted);
}

#[test]
fn rules_that_ask_or_close_in_a_room() {
    let mut state = room(&[("a", &["3h"]), ("b", &["4h"]), ("c", &["5h"])]);
    effect_4(&mut state, "a", &cs(&["4d"]));
    assert_eq!(state.prompts.get("a"), None);
    assert_eq!(state.current, Some("b".to_string()));
    state.fields.insert("trushes".to_string(), Deck::new(cs(&["7h"])));
    effect_4(&mut state, "a", &cs(&["4d"]));
    assert_eq!(state.prompts.get("a"), Some(&"trushes".to_string()));
    effect_7(&mut state, "b", &cs(&["7d"]));
    assert_eq!(state.prompts.get("b"), Some(&"b".to_string()));
    effect_13(&mut state, "c", &cs(&["Kd"]));
    assert_eq!(state.prompts.get("c"), Some(&"excluded".to_string()));
    assert_eq!(state.current, Some("a".to_string()));
    assert_eq!(state.will_flush_task_id, None);
    effect_8(&mut state, "a", &cs(&["8d"]));
    assert_eq!(state.will_flush_task_id, Some("dummy".to_string()));
    state.will_flush_task_id = None;
    effect_2(&mut state, "a", &cs(&["2d"]));
    assert_eq!(state.will_flush_task_id, Some("dummy".to_string()));
    state.will_flush_task_id = None;
    effect_5(&mut state, "a", &cs(&["5d"]));
    assert_eq!(state.current, Some("c".to_string()));
    assert_eq!(state.will_flush_task_id, None);
    effect_5(&mut state, "a", &cs(&["5d", "5s"]));
    assert_eq!(state.current, Some("a".to_string()));
    assert_eq!(state.will_flush_task_id, Some("dummy".to_string()));
    state.effect.effect_limits.extend(1u8..=13);
    state.will_flush_task_id = None;
    effect_8(&mut state, "a", &cs(&["8d"]));
    assert_eq!(state.current, Some("b".to_string()));
    assert_eq!(state.will_flush_task_id, None);
}

#[test]
fn playing_a_card_in_a_room() {
    let mut state = room(&[("a", &["Jh", "3h"]), ("b", &["4h"])]);
    assert_eq!(effect_card(&mut state, "a", &cs(&["Jh"])), Ok(()));
    assert_eq!(state.river, vec![Deck::new(cs(&["Jh"]))]);
    assert_eq!(state.effect.river_size, Some(1));
    assert!(state.effect.turn_revoluted);
    assert_eq!(state.current, Some("b".to_string()));
    let before = format!("{:?}", state);
    assert_eq!(
        effect_card(&mut state, "a", &vec![Card::Number(Suit::Heart, 20)]),
        Err(GameError::InvalidRank)
    );
    assert_eq!(format!("{:?}", state), before);
    assert_eq!(effect_card(&mut state, "b", &cs(&["joker"])), Ok(()));
    assert_eq!(state.river.len(), 2);
    assert_eq!(state.current, Some("a".to_string()));
    assert_eq!(state.serve("a".to_string(), vec![]), Err(GameError::EmptySelection));
    assert_eq!(state.serve("a".to_string(), cs(&["3h", "4h"])), Err(GameError::NotSameNumber));
    assert_eq!(state.serve("z".to_string(), cs(&["3h"])), Err(GameError::FieldNotFound));
    assert_eq!(state.serve("a".to_string(), cs(&["3h"])), Ok(()));
    assert_eq!(pile(&state, "a"), cs(&["Jh"]));
    assert_eq!(state.last_served_player_id, Some("a".to_string()));
    let mut last = room(&[("a", &["6h"]), ("b", &["4h"])]);
    assert_eq!(last.serve("a".to_string(), cs(&["6h"])), Ok(()));
    assert_eq!(last.last_served_player_id, Some("b".to_string()));
    let mut alone = room(&[("a", &["6h"]), ("b", &[])]);
    assert_eq!(alone.serve("a".to_string(), cs(&["6h"])), Err(GameError::MatchEnded));
    assert_eq!(pile(&alone, "a"), cs(&["6h"]));
    assert!(alone.river.is_empty());
}

#[test]
fn taking_and_handing_cards_in_a_room() {
    let mut state = room(&[("a", &["3h", "4h"]), ("b", &["5h"]), ("c", &["6h"])]);
    assert_eq!(
        state.select_trushes("a".to_string(), cs(&["7h"])),
        Err(GameError::RiverEmpty)
    );
    state.river.push(Deck::new(cs(&["4d", "4s"])));
    state.fields.insert("trushes".to_string(), Deck::new(cs(&["7h"])));
    state.fields.insert("excluded".to_string(), Deck::new(cs(&["8h", "9h"])));
    state.prompts.insert("a".to_string(), "trushes".to_string());
    assert_eq!(
        state.select_trushes("a".to_string(), cs(&["7h", "8h"])),
        Err(GameError::InvalidAnswer)
    );
    assert_eq!(state.select_trushes("a".to_string(), cs(&["7h"])), Ok(()));
    assert_eq!(pile(&state, "a"), cs(&["3h", "4h", "7h"]));
    assert_eq!(pile(&state, "trushes"), vec![]);
    assert_eq!(state.prompts.get("a"), None);
    assert_eq!(state.current, Some("b".to_string()));
    assert_eq!(
        state.select_excluded("b".to_string(), vec![]),
        Err(GameError::InvalidAnswer)
    );
    assert_eq!(
        state.select_excluded("b".to_string(), cs(&["8h", "Kh"])),
        Err(GameError::NotFound)
    );
    assert_eq!(pile(&state, "excluded"), cs(&["8h", "9h"]));
    assert_eq!(pile(&state, "b"), cs(&["5h"]));
    assert_eq!(state.current, Some("b".to_string()));
    assert_eq!(state.select_excluded("b".to_string(), cs(&["8h", "9h"])), Ok(()));
    assert_eq!(pile(&state, "excluded"), vec![]);
    assert_eq!(pile(&state, "b"), cs(&["5h", "8h", "9h"]));
    assert_eq!(state.current, Some("c".to_string()));
    assert_eq!(state.select_trushes("c".to_string(), vec![]), Ok(()));
    assert_eq!(state.current, Some("a".to_string()));
    assert_eq!(state.select_passes("c".to_string(), cs(&["6h"])), Ok(()));
    assert_eq!(pile(&state, "b"), cs(&["5h", "8h", "9h", "6h"]));
    assert_eq!(pile(&state, "c"), vec![]);
    assert_eq!(state.current, Some("a".to_string()));
    assert_eq!(
        state.select_passes("z".to_string(), cs(&["6h"])),
        Err(GameError::FieldNotFound)
    );
    assert_eq!(
        state.action(Action::Select {
            from: "somewhere".to_string(),
            player_id: "a".to_string(),
            serves: vec![],
        }),
        Err(GameError::FieldNotFound)
    );
    assert_eq!(
        state.action(Action::ServeAnother { player_id: "a".to_string(), serves: cs(&["3h", "4h"]) }),
        Ok(())
    );
    assert_eq!(pile(&state, "a"), cs(&["7h", "3h", "4h"]));
    assert_eq!(pile(&state, "b"), cs(&["5h", "8h", "9h", "6h"]));
    state.fields.remove("excluded");
    assert_eq!(
        state.select_excluded("a".to_string(), vec![]),
        Err(GameError::FieldNotFound)
    );
}

#[test]
fn contest_in_a_room() {
    let mut state = room(&[("a", &["Ah", "4h"]), ("b", &["5h"])]);
    state.river.push(Deck::new(cs(&["9d"])));
    state.last_served_player_id = Some("b".to_string());
    state.will_flush_task_id = Some("dummy".to_string());
    assert_eq!(
        state.one_chance("z".to_string(), cs(&["Ah"]), true),
        Err(GameError::FieldNotFound)
    );
    assert_eq!(
        state.one_chance("a".to_string(), cs(&["Ah", "4h"]), true),
        Err(GameError::InvalidAnswer)
    );
    let mut missed = state.clone();
    assert_eq!(missed.one_chance("a".to_string(), cs(&["Ah"]), false), Ok(()));
    assert_eq!(pile(&missed, "a"), cs(&["4h"]));
    assert_eq!(pile(&missed, "trushes"), cs(&["Ah"]));
    assert_eq!(missed.river.len(), 1);
    assert_eq!(state.one_chance("a".to_string(), cs(&["Ah"]), true), Ok(()));
    assert_eq!(pile(&state, "a"), cs(&["4h"]));
    assert_eq!(pile(&state, "trushes"), cs(&["Ah", "9d", "Ah"]));
    assert!(state.river.is_empty());
    assert_eq!(state.current, Some("a".to_string()));
    state.effect.effect_limits.insert(1);
    assert_eq!(
        state.one_chance("a".to_string(), cs(&["4h"]), true),
        Err(GameError::InvalidAnswer)
    );
    let mut other = room(&[("a", &["Ah", "4h"])]);
    other.river.push(Deck::new(cs(&["9d"])));
    effect_one_chance(&mut other, "a", &cs(&["Ah"]));
    assert_eq!(pile(&other, "trushes"), cs(&["9d", "Ah"]));
    assert_eq!(other.current, Some("a".to_string()));
    let mut drawn = room(&[("a", &["Ah", "4h"])]);
    assert_eq!(
        drawn.action(Action::OneChance { player_id: "a".to_string(), serves: cs(&["Ah"]) }),
        Ok(())
    );
    assert_eq!(pile(&drawn, "a"), cs(&["4h"]));
    assert_eq!(drawn.holding(), 2);
}

#[test]
fn dealing_in_a_room() {
    let mut state = CareerPokerState::new("r".to_string());
    assert_eq!(state.action(Action::Distribute), Err(GameError::PlayersEmpty));
    state.join("a".to_string());
    state.join("b".to_string());
    state.join("c".to_string());
    assert_eq!(state.action(Action::Distribute), Ok(()));
    assert_eq!(state.current, Some("a".to_string()));
    let a = pile(&state, "a");
    let b = pile(&state, "b");
    let c = pile(&state, "c");
    assert_eq!(a.len(), 18);
    assert_eq!(b.len(), 18);
    assert_eq!(c.len(), 18);
    assert_eq!(a[0], Card::Number(Suit::Diamond, 3));
    assert_eq!(a[17], Card::Number(Suit::Heart, 2));
    assert_eq!(b[0], Card::Number(Suit::Heart, 3));
    assert_eq!(b[17], Card::Joker(None));
    assert_eq!(c[0], Card::Number(Suit::Spade, 3));
    assert_eq!(c[1], Card::Number(Suit::Clover, 3));
    assert_eq!(c[17], Card::Joker(None));
    let mut sorted = Deck::new(a.clone());
    sorted.arrange();
    assert_eq!(sorted.0, a);
    assert_eq!(state.action(Action::Pass { player_id: "a".to_string() }), Err(GameError::RiverEmpty));
    assert_eq!(
        state.action(Action::Serve { player_id: "a".to_string(), serves: vec![a[0]] }),
        Ok(())
    );
    assert_eq!(state.action(Action::Pass { player_id: "b".to_string() }), Ok(()));
    assert_eq!(state.action(Action::Flush { to: "trushes".to_string() }), Ok(()));
    assert_eq!(pile(&state, "trushes"), vec![a[0]]);
}
