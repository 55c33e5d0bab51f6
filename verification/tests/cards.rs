use career_poker::card::{
    card_ord, cardinal, is_same_number, match_suits, number, numbers, strength, suits, Card,
    ParseError, Suit, SuitSet,
};
use career_poker::deck::{beats, deck_ord, position, remove_items, Deck};
use career_poker::error::GameError;
use std::cmp::Ordering;

fn c(text: &str) -> Card {
    Card::try_from(text).unwrap()
}

fn cs(texts: &[&str]) -> Vec<Card> {
    texts.iter().map(|t| c(t)).collect()
}

#[test]
fn parse_reads_rank_and_suit() {
    assert_eq!(Card::try_from("Ah"), Ok(Card::Number(Suit::Heart, 1)));
    assert_eq!(Card::try_from("2s"), Ok(Card::Number(Suit::Spade, 2)));
    assert_eq!(Card::try_from("9d"), Ok(Card::Number(Suit::Diamond, 9)));
    assert_eq!(Card::try_from("Tc"), Ok(Card::Number(Suit::Clover, 10)));
    assert_eq!(Card::try_from("Jh"), Ok(Card::Number(Suit::Heart, 11)));
    assert_eq!(Card::try_from("Qh"), Ok(Card::Number(Suit::Heart, 12)));
    assert_eq!(Card::try_from("Kh"), Ok(Card::Number(Suit::Heart, 13)));
    assert_eq!(Card::try_from("joker"), Ok(Card::Joker(None)));
    assert_eq!(Card::try_from("Khxyz"), Ok(Card::Number(Suit::Heart, 13)));
}

#[test]
fn parse_refuses_what_names_no_card() {
    assert_eq!(Card::try_from(""), Err(ParseError::InvalidRank));
    assert_eq!(Card::try_from("Xh"), Err(ParseError::InvalidRank));
    assert_eq!(Card::try_from("0h"), Err(ParseError::InvalidRank));
    assert_eq!(Card::try_from("1h"), Err(ParseError::InvalidRank));
    assert_eq!(Card::try_from("3"), Err(ParseError::InvalidSuit));
    assert_eq!(Card::try_from("3x"), Err(ParseError::InvalidSuit));
    assert_eq!(Card::try_from("jokes"), Err(ParseError::InvalidRank));
}

#[test]
fn text_round_trips() {
    for suit in Suit::suits() {
        for n in 1u8..=13 {
            let card = Card::Number(suit, n);
            assert_eq!(Card::try_from(card.to_string().as_str()), Ok(card));
        }
    }
    assert_eq!(Card::try_from(Card::Joker(None).to_string().as_str()), Ok(Card::Joker(None)));
}

#[test]
fn text_of_cards() {
    assert_eq!(Card::Number(Suit::Heart, 1).to_string(), "Ah");
    assert_eq!(Card::Number(Suit::Spade, 10).to_string(), "Ts");
    assert_eq!(Card::Number(Suit::Diamond, 7).to_string(), "7d");
    assert_eq!(Card::Number(Suit::Clover, 13).to_string(), "Kc");
    assert_eq!(Card::Number(Suit::UnSuited, 0).to_string(), "0*");
    assert_eq!(Card::Number(Suit::Heart, 14).to_string(), "14h");
    assert_eq!(Card::Number(Suit::Heart, 205).to_string(), "205h");
    assert_eq!(Card::Joker(None).to_string(), "joker");
    assert_eq!(Card::Joker(Some((Suit::Heart, 12))).to_string(), "joker(as Qh)");
    assert_eq!(Suit::UnSuited.to_string(), "*");
}

#[test]
fn suit_and_number_of_cards() {
    assert_eq!(c("Qh").suit(), Suit::Heart);
    assert_eq!(c("Qh").number(), Some(12));
    assert_eq!(Card::Joker(None).suit(), Suit::UnSuited);
    assert_eq!(Card::Joker(None).number(), None);
    assert_eq!(Card::Joker(Some((Suit::Spade, 5))).suit(), Suit::Spade);
    assert_eq!(Card::Joker(Some((Suit::Spade, 5))).number(), Some(5));
    assert_eq!(
        Suit::suits(),
        vec![Suit::Spade, Suit::Diamond, Suit::Heart, Suit::Clover]
    );
}

#[test]
fn pictures_of_cards() {
    assert_eq!(c("As").char(), '\u{1F0A1}');
    assert_eq!(c("Js").char(), '\u{1F0AB}');
    assert_eq!(c("Qs").char(), '\u{1F0AD}');
    assert_eq!(c("Ah").char(), '\u{1F0B1}');
    assert_eq!(c("Qh").char(), '\u{1F0BD}');
    assert_eq!(c("Ad").char(), '\u{1F0C1}');
    assert_eq!(c("Kc").char(), '\u{1F0DE}');
    assert_eq!(Card::Joker(None).char(), '\u{1F0DF}');
    assert_eq!(c("Kc").picture(), Some('\u{1F0DE}'));
    assert_eq!(Card::Number(Suit::Clover, 15).picture(), None);
    assert_eq!(Card::Number(Suit::Spade, 0).picture(), None);
    assert_eq!(Card::Number(Suit::Spade, 14).picture(), Some('\u{1F0B1}'));
}

#[test]
fn cardinal_puts_three_lowest_and_two_highest() {
    assert_eq!(cardinal(3), 0);
    assert_eq!(cardinal(4), 1);
    assert_eq!(cardinal(13), 10);
    assert_eq!(cardinal(1), 11);
    assert_eq!(cardinal(2), 12);
    assert_eq!(cardinal(14), 11);
    assert_eq!(cardinal(255), 5);
    assert_eq!(strength(&c("3h")), 0);
    assert_eq!(strength(&Card::Joker(None)), 13);
}

#[test]
fn card_ord_compares_by_strength() {
    assert_eq!(card_ord(&c("3h"), &c("4h")), Ordering::Less);
    assert_eq!(card_ord(&c("2h"), &c("Ah")), Ordering::Greater);
    assert_eq!(card_ord(&c("Ah"), &c("Kh")), Ordering::Greater);
    assert_eq!(card_ord(&c("7h"), &c("7s")), Ordering::Equal);
    assert_eq!(card_ord(&c("2h"), &Card::Joker(None)), Ordering::Less);
    assert_eq!(card_ord(&Card::Joker(None), &c("2h")), Ordering::Greater);
    assert_eq!(card_ord(&Card::Joker(None), &Card::Joker(None)), Ordering::Equal);
}

#[test]
fn same_number_counts_jokers_as_any_rank() {
    assert!(is_same_number(&cs(&[])));
    assert!(is_same_number(&cs(&["3h", "3d"])));
    assert!(is_same_number(&cs(&["3h", "joker", "3d"])));
    assert!(is_same_number(&cs(&["joker", "joker"])));
    assert!(!is_same_number(&cs(&["3h", "4h"])));
    assert!(!is_same_number(&cs(&["joker", "3h", "joker", "4h"])));
}

#[test]
fn numbers_and_number_of_a_group() {
    let set = numbers(&cs(&["3h", "joker", "4d", "3s"]));
    assert_eq!(set.len(), 2);
    assert!(set.contains(&3));
    assert!(set.contains(&4));
    assert!(numbers(&cs(&["joker"])).is_empty());
    assert_eq!(number(&cs(&["joker", "5h", "5d"])), 5);
    assert_eq!(number(&cs(&["joker"])), 14);
    assert_eq!(number(&cs(&[])), 14);
    assert_eq!(number(&cs(&["Kh", "3h"])), 13);
}

#[test]
fn suits_leave_out_free_jokers() {
    let shown = suits(&cs(&["3h", "joker", "3s"]));
    assert!(shown.contains(Suit::Heart));
    assert!(shown.contains(Suit::Spade));
    assert!(!shown.contains(Suit::Diamond));
    assert!(!shown.contains(Suit::UnSuited));
    assert!(suits(&cs(&["joker"])).is_empty());
    assert!(match_suits(&cs(&["3h"]), &cs(&["4h", "4s"])));
    assert!(!match_suits(&cs(&["3h", "3d"]), &cs(&["4h", "4s"])));
    assert!(match_suits(&cs(&["joker"]), &cs(&["4s"])));
    assert!(match_suits(&cs(&[]), &cs(&[])));
}

#[test]
fn suit_sets() {
    let mut a = SuitSet::new();
    assert!(a.is_empty());
    a.insert(Suit::Heart);
    a.insert(Suit::UnSuited);
    assert!(a.contains(Suit::Heart));
    assert!(!a.contains(Suit::UnSuited));
    let mut b = SuitSet::new();
    b.insert(Suit::Clover);
    assert!(!a.is_superset(&b));
    a.extend(&b);
    assert!(a.is_superset(&b));
    assert!(a.contains(Suit::Clover));
    assert!(!b.is_superset(&a));
}

#[test]
fn deck_ord_compares_the_weakest_cards() {
    assert_eq!(deck_ord(&cs(&["Ah"]), &cs(&["Kh"])), Ordering::Greater);
    assert_eq!(deck_ord(&cs(&["3h", "3d"]), &cs(&["4h", "4d"])), Ordering::Less);
    assert_eq!(deck_ord(&cs(&["5h", "5d"]), &cs(&["5s", "5c"])), Ordering::Equal);
    assert_eq!(deck_ord(&cs(&["joker", "3h"]), &cs(&["4h", "4d"])), Ordering::Less);
    assert_eq!(deck_ord(&cs(&["joker"]), &cs(&["2h"])), Ordering::Greater);
    assert_eq!(deck_ord(&cs(&[]), &cs(&["2h"])), Ordering::Equal);
    assert!(beats(&cs(&["Ah"]), &cs(&["Kh"]), false));
    assert!(!beats(&cs(&["Ah"]), &cs(&["Kh"]), true));
    assert!(beats(&cs(&["Qh"]), &cs(&["Kh"]), true));
    assert!(!beats(&cs(&["Kd"]), &cs(&["Kh"]), false));
    assert!(!beats(&cs(&["Kd"]), &cs(&["Kh"]), true));
}

#[test]
fn remove_takes_one_card_for_each_named() {
    let mut items = cs(&["3h", "joker", "4h", "joker", "3h"]);
    assert_eq!(remove_items(&mut items, &cs(&["joker", "3h"])), Ok(()));
    assert_eq!(items, cs(&["4h", "joker", "3h"]));
    assert_eq!(remove_items(&mut items, &cs(&["joker", "joker"])), Err(GameError::NotFound));
    assert_eq!(items, cs(&["4h", "joker", "3h"]));
    assert_eq!(remove_items(&mut items, &cs(&["5h"])), Err(GameError::NotFound));
    assert_eq!(remove_items(&mut items, &cs(&[])), Ok(()));
    let mut deck = Deck::new(cs(&["3h", "3h"]));
    assert_eq!(deck.remove(&cs(&["3h", "3h"])), Ok(()));
    assert_eq!(deck, Deck::new(vec![]));
    assert_eq!(position(&cs(&["3h", "4h", "3h"]), &c("3h")), Some(0));
    assert_eq!(position(&cs(&["3h", "4h", "3h"]), &c("5h")), None);
}

#[test]
fn full_deck_lists_suits_in_turn() {
    let deck = Deck::all(2);
    assert_eq!(deck.0.len(), 54);
    assert_eq!(deck.0[0], Card::Number(Suit::Spade, 1));
    assert_eq!(deck.0[12], Card::Number(Suit::Spade, 13));
    assert_eq!(deck.0[13], Card::Number(Suit::Diamond, 1));
    assert_eq!(deck.0[26], Card::Number(Suit::Heart, 1));
    assert_eq!(deck.0[51], Card::Number(Suit::Clover, 13));
    assert_eq!(deck.0[52], Card::Joker(None));
    assert_eq!(deck.0[53], Card::Joker(None));
    assert_eq!(Deck::all(0).0.len(), 52);
    assert_eq!(Deck::from(cs(&["3h"])), Deck::new(cs(&["3h"])));
}

#[test]
fn split_deals_round_the_table() {
    let deck = Deck::new(cs(&["3h", "4h", "5h", "6h", "7h"]));
    assert_eq!(
        deck.split(2),
        Ok(vec![Deck::new(cs(&["3h", "5h", "7h"])), Deck::new(cs(&["4h", "6h"]))])
    );
    assert_eq!(
        deck.split(1),
        Ok(vec![Deck::new(cs(&["3h", "4h", "5h", "6h", "7h"]))])
    );
    assert_eq!(deck.split(0), Err(GameError::PlayersEmpty));
    let hands = deck.split(7).unwrap();
    assert_eq!(hands.len(), 7);
    assert_eq!(hands[4], Deck::new(cs(&["7h"])));
    assert_eq!(hands[5], Deck::new(vec![]));
}

#[test]
fn sort_orders_by_strength_and_keeps_level_cards_in_order() {
    let mut deck = Deck::new(cs(&["2h", "3s", "joker", "Ah", "3h", "Kd", "3d"]));
    deck.sort(card_ord);
    assert_eq!(deck, Deck::new(cs(&["3s", "3h", "3d", "Kd", "Ah", "2h", "joker"])));
    let mut same = Deck::new(cs(&["2h", "3s", "joker", "Ah", "3h", "Kd", "3d"]));
    same.arrange();
    assert_eq!(same, deck);
    let mut whole = Deck::all(2);
    whole.sort(card_ord);
    assert_eq!(whole.0[0], Card::Number(Suit::Spade, 3));
    assert_eq!(whole.0[3], Card::Number(Suit::Clover, 3));
    assert_eq!(whole.0[51], Card::Number(Suit::Clover, 2));
    assert_eq!(whole.0[53], Card::Joker(None));
    let mut again = Deck::all(2);
    again.arrange();
    assert_eq!(again, whole);
}

#[test]
fn shuffle_keeps_the_cards() {
    let mut deck = Deck::all(2);
    deck.shuffle();
    assert_ne!(deck, Deck::all(2));
    let mut texts: Vec<String> = deck.0.iter().map(|c| c.to_string()).collect();
    let mut pool: Vec<String> = Deck::all(2).0.iter().map(|c| c.to_string()).collect();
    texts.sort();
    pool.sort();
    assert_eq!(texts, pool);
}
