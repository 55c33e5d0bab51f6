use career_poker::card::Card;
use career_poker::deck::Deck;
use career_poker::state::{servable, Action, CareerPokerState};
use career_poker::text_map::TextMap;

fn card(text: &str) -> Card {
    Card::try_from(text).unwrap()
}

fn fields_of(piles: Vec<(&str, Deck)>) -> TextMap<Deck> {
    let mut fields = TextMap::new();
    for (name, deck) in piles {
        fields.insert(name.to_string(), deck);
    }
    fields
}

#[test]
fn test_servable() {
    let mut state = CareerPokerState::new("".to_string());
    let serves = vec![card("3h"), card("3d")];
    assert_eq!(servable(&state, &serves), true);

    state.effect.river_size = Some(1);
    state.river.push(Deck::new(vec![card("Kh")]));

    let serves = vec![card("Ah")];
    assert_eq!(servable(&state, &serves), true);
}

#[test]
fn test_get_relative_player() {
    let mut state = CareerPokerState::new("".to_string());
    state.fields = fields_of(vec![
        ("a", Deck::new(vec![card("Ah")])),
        ("b", Deck::new(vec![card("Ah")])),
        ("c", Deck::new(vec![card("Ah")])),
    ]);
    state.players = vec!["a".to_string(), "b".to_string(), "c".to_string()];
    assert_eq!(state.get_relative_player("a", 1), Some("b".to_string()));
    assert_eq!(state.get_relative_player("a", -1), Some("c".to_string()));
    assert_eq!(state.get_relative_player("a", 2), Some("c".to_string()));
    assert_eq!(state.get_relative_player("a", 3), Some("a".to_string()));

    let mut state = CareerPokerState::new("".to_string());
    state.fields = fields_of(vec![
        ("a", Deck::new(vec![card("Ah")])),
        ("b", Deck::new(vec![card("Ah")])),
    ]);
    state.players = vec!["a".to_string(), "b".to_string()];
    assert_eq!(state.get_relative_player("a", 1), Some("b".to_string()));
    assert_eq!(state.get_relative_player("a", -1), Some("b".to_string()));
    assert_eq!(state.get_relative_player("a", 2), Some("a".to_string()));
}

#[test]
fn test_effect_12() {
    let mut state = CareerPokerState::new("".to_string());
    state.fields = fields_of(vec![
        ("a", Deck::new(vec![card("Ah")])),
        ("b", Deck::new(vec![card("Ah")])),
    ]);
    state.players = vec!["a".to_string(), "b".to_string()];
    let _ = state.serve("a".to_string(), vec![card("Qh")]);
    println!("{:?}", state.effect);
    assert_eq!(servable(&state, &vec![card("Ks")]), false);
}

#[test]
fn test_effect_4() {
    let mut state = CareerPokerState::new("".to_string());
    state.fields = fields_of(vec![
        ("a", Deck::new(vec![])),
        ("trushes", Deck::new(vec![card("Ah")])),
    ]);
    state.river = vec![Deck::new(vec![card("4h")])];
    state.players = vec!["a".to_string(), "b".to_string()];
    state
        .action(Action::Select {
            from: "trushes".to_string(),
            player_id: "a".to_string(),
            serves: vec![card("Ah")],
        })
        .unwrap();
    assert_eq!(state.fields.get("trushes").unwrap(), &Deck::new(vec![]));
    assert_eq!(state.fields.get("a").unwrap(), &Deck::new(vec![card("Ah")]));
}
