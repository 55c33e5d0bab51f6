//! Suits, cards and the comparison primitives of the game.

use std::cmp::Ordering;
use std::collections::HashSet;
use vstd::prelude::*;

verus! {

/// The suit of a card. `UnSuited` belongs to a joker that stands for no card.
#[derive(Debug, Clone, Copy, PartialEq, Eq, Hash, Structural)]
pub enum Suit {
    UnSuited,
    Spade,
    Diamond,
    Heart,
    Clover,
}

/// A playing card: a numbered card of rank 1 (ace) to 13 (king), or a joker
/// that may stand for a numbered card.
#[derive(Debug, Clone, Copy, Eq)]
pub enum Card {
    Number(Suit, u8),
    Joker(Option<(Suit, u8)>),
}

impl PartialEq for Card {
    fn eq(&self, other: &Card) -> (r: bool) {
        match (self, other) {
            (Card::Number(s, n), Card::Number(t, m)) => *s == *t && *n == *m,
            (Card::Joker(None), Card::Joker(None)) => true,
            (Card::Joker(Some((s, n))), Card::Joker(Some((t, m)))) => *s == *t && *n == *m,
            _ => false,
        }
    }
}

impl vstd::std_specs::cmp::PartialEqSpecImpl for Card {
    open spec fn obeys_eq_spec() -> bool {
        true
    }

    open spec fn eq_spec(&self, other: &Card) -> bool {
        *self == *other
    }
}

/// Why a text names no card.
#[derive(Debug, Clone, Copy, PartialEq, Eq, Structural)]
pub enum ParseError {
    /// The first character is no rank.
    InvalidRank,
    /// The second character is no suit.
    InvalidSuit,
}

impl Suit {
    /// The four suits of numbered cards, in the order in which a full deck
    /// lists them.
    pub open spec fn all() -> Seq<Suit> {
        seq![Suit::Spade, Suit::Diamond, Suit::Heart, Suit::Clover]
    }

    pub fn suits() -> (v: Vec<Suit>)
        ensures
            v@ == Suit::all(),
    {
        vec![Suit::Spade, Suit::Diamond, Suit::Heart, Suit::Clover]
    }

    /// The letter that stands for a suit in a card's text.
    pub open spec fn letter(self) -> char {
        match self {
            Suit::Spade => 's',
            Suit::Diamond => 'd',
            Suit::Heart => 'h',
            Suit::Clover => 'c',
            Suit::UnSuited => '*',
        }
    }

    /// The suit's letter as a text of one character.
    pub fn to_string(&self) -> (t: String)
        ensures
            t@ == seq![self.letter()],
    {
        proof {
            reveal_strlit("s");
            reveal_strlit("d");
            reveal_strlit("h");
            reveal_strlit("c");
            reveal_strlit("*");
        }
        let t = match self {
            Suit::Spade => String::from_str("s"),
            Suit::Diamond => String::from_str("d"),
            Suit::Heart => String::from_str("h"),
            Suit::Clover => String::from_str("c"),
            Suit::UnSuited => String::from_str("*"),
        };
        assert(t@ =~= seq![self.letter()]);
        t
    }

    /// The suit that a letter stands for.
    pub open spec fn of_letter(c: char) -> Option<Suit> {
        if c == 'h' {
            Some(Suit::Heart)
        } else if c == 'd' {
            Some(Suit::Diamond)
        } else if c == 'c' {
            Some(Suit::Clover)
        } else if c == 's' {
            Some(Suit::Spade)
        } else {
            None
        }
    }

    /// Where the suit's thirteen pictures start in the table of pictures,
    /// counted in blocks of thirteen.
    pub open spec fn block(self) -> int {
        match self {
            Suit::Spade => 0,
            Suit::Heart => 1,
            Suit::Diamond => 2,
            Suit::Clover => 3,
            Suit::UnSuited => 0,
        }
    }
}

/// The pictures of the cards: the back, then ace to king of spades, hearts,
/// diamonds and clovers, then the joker.
pub open spec fn card_pictures() -> Seq<char> {
    "\u{1F0A0}\u{1F0A1}\u{1F0A2}\u{1F0A3}\u{1F0A4}\u{1F0A5}\u{1F0A6}\u{1F0A7}\u{1F0A8}\u{1F0A9}\u{1F0AA}\u{1F0AB}\u{1F0AD}\u{1F0AE}\u{1F0B1}\u{1F0B2}\u{1F0B3}\u{1F0B4}\u{1F0B5}\u{1F0B6}\u{1F0B7}\u{1F0B8}\u{1F0B9}\u{1F0BA}\u{1F0BB}\u{1F0BD}\u{1F0BE}\u{1F0C1}\u{1F0C2}\u{1F0C3}\u{1F0C4}\u{1F0C5}\u{1F0C6}\u{1F0C7}\u{1F0C8}\u{1F0C9}\u{1F0CA}\u{1F0CB}\u{1F0CD}\u{1F0CE}\u{1F0D1}\u{1F0D2}\u{1F0D3}\u{1F0D4}\u{1F0D5}\u{1F0D6}\u{1F0D7}\u{1F0D8}\u{1F0D9}\u{1F0DA}\u{1F0DB}\u{1F0DD}\u{1F0DE}\u{1F0DF}"@
}

/// The text "joker".
pub open spec fn joker_text() -> Seq<char> {
    seq!['j', 'o', 'k', 'e', 'r']
}

/// The rank that a character stands for.
pub open spec fn rank_of_letter(c: char) -> Option<u8> {
    if c == 'A' {
        Some(1u8)
    } else if c == '2' {
        Some(2u8)
    } else if c == '3' {
        Some(3u8)
    } else if c == '4' {
        Some(4u8)
    } else if c == '5' {
        Some(5u8)
    } else if c == '6' {
        Some(6u8)
    } else if c == '7' {
        Some(7u8)
    } else if c == '8' {
        Some(8u8)
    } else if c == '9' {
        Some(9u8)
    } else if c == 'T' {
        Some(10u8)
    } else if c == 'J' {
        Some(11u8)
    } else if c == 'Q' {
        Some(12u8)
    } else if c == 'K' {
        Some(13u8)
    } else {
        None
    }
}

/// The card that a text names: "joker", or a rank character and a suit
/// letter; what follows the two characters is not read.
pub open spec fn parse_card(text: Seq<char>) -> Result<Card, ParseError> {
    if text == joker_text() {
        Ok(Card::Joker(None))
    } else if text.len() < 1 {
        Err(ParseError::InvalidRank)
    } else {
        match rank_of_letter(text[0]) {
            None => Err(ParseError::InvalidRank),
            Some(n) => if text.len() < 2 {
                Err(ParseError::InvalidSuit)
            } else {
                match Suit::of_letter(text[1]) {
                    None => Err(ParseError::InvalidSuit),
                    Some(s) => Ok(Card::Number(s, n)),
                }
            },
        }
    }
}

/// The character of a decimal digit.
pub open spec fn digit_letter(d: int) -> char {
    if d == 0 {
        '0'
    } else if d == 1 {
        '1'
    } else if d == 2 {
        '2'
    } else if d == 3 {
        '3'
    } else if d == 4 {
        '4'
    } else if d == 5 {
        '5'
    } else if d == 6 {
        '6'
    } else if d == 7 {
        '7'
    } else if d == 8 {
        '8'
    } else {
        '9'
    }
}

/// A number below 1000 in decimal digits, without leading zeros.
pub open spec fn decimal_text(n: int) -> Seq<char> {
    if n < 10 {
        seq![digit_letter(n)]
    } else if n < 100 {
        seq![digit_letter(n / 10), digit_letter(n % 10)]
    } else {
        seq![digit_letter(n / 100), digit_letter((n / 10) % 10), digit_letter(n % 10)]
    }
}

/// The text of a rank: a letter for ace, ten, jack, queen and king, else the
/// number in decimal digits.
pub open spec fn rank_text(n: u8) -> Seq<char> {
    if n == 1 {
        seq!['A']
    } else if n == 10 {
        seq!['T']
    } else if n == 11 {
        seq!['J']
    } else if n == 12 {
        seq!['Q']
    } else if n == 13 {
        seq!['K']
    } else {
        decimal_text(n as int)
    }
}

fn digit_string(d: u8) -> (t: String)
    requires
        d < 10,
    ensures
        t@ == seq![digit_letter(d as int)],
{
    proof {
        reveal_strlit("0");
        reveal_strlit("1");
        reveal_strlit("2");
        reveal_strlit("3");
        reveal_strlit("4");
        reveal_strlit("5");
        reveal_strlit("6");
        reveal_strlit("7");
        reveal_strlit("8");
        reveal_strlit("9");
    }
    let t = if d == 0 {
        String::from_str("0")
    } else if d == 1 {
        String::from_str("1")
    } else if d == 2 {
        String::from_str("2")
    } else if d == 3 {
        String::from_str("3")
    } else if d == 4 {
        String::from_str("4")
    } else if d == 5 {
        String::from_str("5")
    } else if d == 6 {
        String::from_str("6")
    } else if d == 7 {
        String::from_str("7")
    } else if d == 8 {
        String::from_str("8")
    } else {
        String::from_str("9")
    };
    assert(t@ =~= seq![digit_letter(d as int)]);
    t
}

fn rank_string(n: u8) -> (t: String)
    ensures
        t@ == rank_text(n),
{
    proof {
        reveal_strlit("A");
        reveal_strlit("T");
        reveal_strlit("J");
        reveal_strlit("Q");
        reveal_strlit("K");
    }
    let t = if n == 1 {
        String::from_str("A")
    } else if n == 10 {
        String::from_str("T")
    } else if n == 11 {
        String::from_str("J")
    } else if n == 12 {
        String::from_str("Q")
    } else if n == 13 {
        String::from_str("K")
    } else if n < 10 {
        digit_string(n)
    } else if n < 100 {
        let mut t = digit_string(n / 10);
        let low = digit_string(n % 10);
        t.append(low.as_str());
        t
    } else {
        let mut t = digit_string(n / 100);
        let mid = digit_string((n / 10) % 10);
        let low = digit_string(n % 10);
        t.append(mid.as_str());
        t.append(low.as_str());
        t
    };
    assert(t@ =~= rank_text(n));
    t
}

impl Card {
    /// A card of the deck: a numbered card of rank 1 to 13 with a suit, or a
    /// joker that stands for such a card or for none.
    pub open spec fn wf(self) -> bool {
        match self {
            Card::Number(s, n) => s != Suit::UnSuited && 1 <= n <= 13,
            Card::Joker(Some((s, n))) => s != Suit::UnSuited && 1 <= n <= 13,
            Card::Joker(None) => true,
        }
    }

    /// Where the card's picture stands in the table of pictures.
    pub open spec fn picture_index(self) -> int {
        match self {
            Card::Number(s, n) => 1 + s.block() * 13 + (n - 1),
            Card::Joker(_) => 53,
        }
    }

    /// The text of a card: rank and suit letter, "joker", or "joker(as ..)"
    /// with the card that the joker stands for.
    pub open spec fn text_of(self) -> Seq<char> {
        match self {
            Card::Number(s, n) => rank_text(n).push(s.letter()),
            Card::Joker(None) => joker_text(),
            Card::Joker(Some((s, n))) => (seq!['j', 'o', 'k', 'e', 'r', '(', 'a', 's', ' ']
                + rank_text(n)).push(s.letter()).push(')'),
        }
    }

    /// The picture of the card.
    pub fn char(&self) -> (c: char)
        requires
            self matches Card::Number(_, n) ==> n >= 1,
            self.picture_index() < 54,
        ensures
            c == card_pictures()[self.picture_index()],
    {
        proof {
            reveal_strlit("\u{1F0A0}\u{1F0A1}\u{1F0A2}\u{1F0A3}\u{1F0A4}\u{1F0A5}\u{1F0A6}\u{1F0A7}\u{1F0A8}\u{1F0A9}\u{1F0AA}\u{1F0AB}\u{1F0AD}\u{1F0AE}\u{1F0B1}\u{1F0B2}\u{1F0B3}\u{1F0B4}\u{1F0B5}\u{1F0B6}\u{1F0B7}\u{1F0B8}\u{1F0B9}\u{1F0BA}\u{1F0BB}\u{1F0BD}\u{1F0BE}\u{1F0C1}\u{1F0C2}\u{1F0C3}\u{1F0C4}\u{1F0C5}\u{1F0C6}\u{1F0C7}\u{1F0C8}\u{1F0C9}\u{1F0CA}\u{1F0CB}\u{1F0CD}\u{1F0CE}\u{1F0D1}\u{1F0D2}\u{1F0D3}\u{1F0D4}\u{1F0D5}\u{1F0D6}\u{1F0D7}\u{1F0D8}\u{1F0D9}\u{1F0DA}\u{1F0DB}\u{1F0DD}\u{1F0DE}\u{1F0DF}");
        }
        let table = "\u{1F0A0}\u{1F0A1}\u{1F0A2}\u{1F0A3}\u{1F0A4}\u{1F0A5}\u{1F0A6}\u{1F0A7}\u{1F0A8}\u{1F0A9}\u{1F0AA}\u{1F0AB}\u{1F0AD}\u{1F0AE}\u{1F0B1}\u{1F0B2}\u{1F0B3}\u{1F0B4}\u{1F0B5}\u{1F0B6}\u{1F0B7}\u{1F0B8}\u{1F0B9}\u{1F0BA}\u{1F0BB}\u{1F0BD}\u{1F0BE}\u{1F0C1}\u{1F0C2}\u{1F0C3}\u{1F0C4}\u{1F0C5}\u{1F0C6}\u{1F0C7}\u{1F0C8}\u{1F0C9}\u{1F0CA}\u{1F0CB}\u{1F0CD}\u{1F0CE}\u{1F0D1}\u{1F0D2}\u{1F0D3}\u{1F0D4}\u{1F0D5}\u{1F0D6}\u{1F0D7}\u{1F0D8}\u{1F0D9}\u{1F0DA}\u{1F0DB}\u{1F0DD}\u{1F0DE}\u{1F0DF}";
        match self {
            Card::Number(s, n) => {
                let block: usize = match s {
                    Suit::Spade => 0,
                    Suit::Heart => 1,
                    Suit::Diamond => 2,
                    Suit::Clover => 3,
                    Suit::UnSuited => 0,
                };
                let index: usize = 1 + block * 13 + (*n - 1) as usize;
                table.get_char(index)
            },
            Card::Joker(_) => table.get_char(53),
        }
    }

    /// Reads a card from its text.
    pub fn try_from(text: &str) -> (r: Result<Card, ParseError>)
        ensures
            r == parse_card(text@),
    {
        let len: usize = text.unicode_len();
        if len == 5 && text.get_char(0) == 'j' && text.get_char(1) == 'o' && text.get_char(2)
            == 'k' && text.get_char(3) == 'e' && text.get_char(4) == 'r' {
            assert(text@ =~= joker_text());
            return Ok(Card::Joker(None));
        }
        if len < 1 {
            return Err(ParseError::InvalidRank);
        }
        let n: u8 = match rank_from_letter(text.get_char(0)) {
            Some(n) => n,
            None => {
                return Err(ParseError::InvalidRank);
            },
        };
        if len < 2 {
            return Err(ParseError::InvalidSuit);
        }
        let c: char = text.get_char(1);
        let s: Suit = if c == 'h' {
            Suit::Heart
        } else if c == 'd' {
            Suit::Diamond
        } else if c == 'c' {
            Suit::Clover
        } else if c == 's' {
            Suit::Spade
        } else {
            return Err(ParseError::InvalidSuit);
        };
        Ok(Card::Number(s, n))
    }

    /// Writes a card as text.
    pub fn to_string(&self) -> (t: String)
        ensures
            t@ == self.text_of(),
    {
        match self {
            Card::Number(s, n) => {
                let mut t = rank_string(*n);
                let l = s.to_string();
                t.append(l.as_str());
                assert(t@ =~= self.text_of());
                t
            },
            Card::Joker(None) => {
                proof {
                    reveal_strlit("joker");
                }
                let t = String::from_str("joker");
                assert(t@ =~= joker_text());
                t
            },
            Card::Joker(Some((s, n))) => {
                proof {
                    reveal_strlit("joker(as ");
                    reveal_strlit(")");
                }
                let mut t = String::from_str("joker(as ");
                let r = rank_string(*n);
                let l = s.to_string();
                t.append(r.as_str());
                t.append(l.as_str());
                t.append(")");
                assert(t@ =~= self.text_of());
                t
            },
        }
    }

    /// The suit a card counts as: its own, the one a joker stands for, or
    /// `UnSuited` for a free joker.
    pub open spec fn suit_of(self) -> Suit {
        match self {
            Card::Number(s, _) => s,
            Card::Joker(Some((s, _))) => s,
            Card::Joker(None) => Suit::UnSuited,
        }
    }

    /// The rank a card counts as; a free joker has none.
    pub open spec fn rank_of(self) -> Option<u8> {
        match self {
            Card::Number(_, n) => Some(n),
            Card::Joker(Some((_, n))) => Some(n),
            Card::Joker(None) => None,
        }
    }

    pub fn suit(&self) -> (s: Suit)
        ensures
            s == self.suit_of(),
    {
        match self {
            Card::Number(s, _) => *s,
            Card::Joker(Some((s, _))) => *s,
            Card::Joker(None) => Suit::UnSuited,
        }
    }

    pub fn number(&self) -> (n: Option<u8>)
        ensures
            n == self.rank_of(),
    {
        match self {
            Card::Number(_, n) => Some(*n),
            Card::Joker(Some((_, n))) => Some(*n),
            Card::Joker(None) => None,
        }
    }
}

/// Strength of a rank: 3 is weakest (0), 2 is strongest (12).
pub open spec fn cardinal_of(n: u8) -> int {
    (n + 10) % 13
}

pub fn cardinal(n: u8) -> (c: i32)
    ensures
        c == cardinal_of(n),
{
    let wide: i32 = n as i32;
    (wide + 10) % 13
}

/// The strength of a card: that of its rank, and 13, above every rank, for a
/// free joker.
pub open spec fn card_key(c: Card) -> int {
    match c.rank_of() {
        Some(n) => cardinal_of(n),
        None => 13,
    }
}

/// How one strength stands to another.
pub open spec fn order_of(a: int, b: int) -> Ordering {
    if a < b {
        Ordering::Less
    } else if a == b {
        Ordering::Equal
    } else {
        Ordering::Greater
    }
}

/// The order of two cards by strength. A free joker is above every rank, and
/// two free jokers are level.
pub open spec fn card_order(l: Card, r: Card) -> Ordering {
    order_of(card_key(l), card_key(r))
}

/// The strength of a card.
pub fn strength(c: &Card) -> (k: i32)
    ensures
        k == card_key(*c),
{
    match c.number() {
        Some(n) => cardinal(n),
        None => 13,
    }
}

pub fn card_ord(l: &Card, r: &Card) -> (o: Ordering)
    ensures
        o == card_order(*l, *r),
{
    match (l.number(), r.number()) {
        (None, None) => Ordering::Equal,
        (Some(_), None) => Ordering::Less,
        (None, Some(_)) => Ordering::Greater,
        (Some(i), Some(j)) => {
            let a: i32 = cardinal(i);
            let b: i32 = cardinal(j);
            if a < b {
                Ordering::Less
            } else if a == b {
                Ordering::Equal
            } else {
                Ordering::Greater
            }
        },
    }
}


/// A set of suits of numbered cards.
#[derive(Debug, Clone, Copy, PartialEq, Eq, Structural)]
pub struct SuitSet {
    pub spade: bool,
    pub diamond: bool,
    pub heart: bool,
    pub clover: bool,
}

impl SuitSet {
    /// Whether the suit is in the set; `UnSuited` never is.
    pub open spec fn has(self, s: Suit) -> bool {
        match s {
            Suit::Spade => self.spade,
            Suit::Diamond => self.diamond,
            Suit::Heart => self.heart,
            Suit::Clover => self.clover,
            Suit::UnSuited => false,
        }
    }

    pub fn new() -> (r: SuitSet)
        ensures
            r@ == Set::<Suit>::empty(),
    {
        let r = SuitSet { spade: false, diamond: false, heart: false, clover: false };
        assert(r@ =~= Set::<Suit>::empty());
        r
    }

    /// Puts a suit into the set; `UnSuited` is left out.
    pub fn insert(&mut self, s: Suit)
        ensures
            final(self)@ == if s == Suit::UnSuited {
                old(self)@
            } else {
                old(self)@.insert(s)
            },
    {
        match s {
            Suit::Spade => {
                self.spade = true;
            },
            Suit::Diamond => {
                self.diamond = true;
            },
            Suit::Heart => {
                self.heart = true;
            },
            Suit::Clover => {
                self.clover = true;
            },
            Suit::UnSuited => {},
        }
        assert(self@ =~= if s == Suit::UnSuited {
            old(self)@
        } else {
            old(self)@.insert(s)
        });
    }

    pub fn contains(&self, s: Suit) -> (r: bool)
        ensures
            r == self@.contains(s),
    {
        match s {
            Suit::Spade => self.spade,
            Suit::Diamond => self.diamond,
            Suit::Heart => self.heart,
            Suit::Clover => self.clover,
            Suit::UnSuited => false,
        }
    }

    pub fn is_empty(&self) -> (r: bool)
        ensures
            r == (self@ == Set::<Suit>::empty()),
    {
        let r = !self.spade && !self.diamond && !self.heart && !self.clover;
        proof {
            if r {
                assert(self@ =~= Set::<Suit>::empty());
            } else {
                assert(self@.contains(Suit::Spade) || self@.contains(Suit::Diamond)
                    || self@.contains(Suit::Heart) || self@.contains(Suit::Clover));
            }
        }
        r
    }

    /// Whether every suit of `other` is in this set.
    pub fn is_superset(&self, other: &SuitSet) -> (r: bool)
        ensures
            r == other@.subset_of(self@),
    {
        let r = (!other.spade || self.spade) && (!other.diamond || self.diamond) && (!other.heart
            || self.heart) && (!other.clover || self.clover);
        proof {
            if r {
                assert forall|s: Suit| other@.contains(s) implies self@.contains(s) by {}
            } else {
                assert((other@.contains(Suit::Spade) && !self@.contains(Suit::Spade)) || (
                other@.contains(Suit::Diamond) && !self@.contains(Suit::Diamond)) || (
                other@.contains(Suit::Heart) && !self@.contains(Suit::Heart)) || (
                other@.contains(Suit::Clover) && !self@.contains(Suit::Clover)));
            }
        }
        r
    }

    /// Adds the suits of `other` to this set.
    pub fn extend(&mut self, other: &SuitSet)
        ensures
            final(self)@ == old(self)@.union(other@),
    {
        self.spade = self.spade || other.spade;
        self.diamond = self.diamond || other.diamond;
        self.heart = self.heart || other.heart;
        self.clover = self.clover || other.clover;
        assert(self@ =~= old(self)@.union(other@));
    }
}

impl View for SuitSet {
    type V = Set<Suit>;

    open spec fn view(&self) -> Set<Suit> {
        Set::new(|s: Suit| self.has(s))
    }
}

/// Whether the card at `i` counts as rank `n`.
pub open spec fn ranked_at(cards: Seq<Card>, i: int, n: u8) -> bool {
    0 <= i < cards.len() && cards[i].rank_of() == Some(n)
}

/// Whether the card at `i` counts as suit `s`.
pub open spec fn suited_at(cards: Seq<Card>, i: int, s: Suit) -> bool {
    0 <= i < cards.len() && cards[i].suit_of() == s
}

/// The ranks that the cards count as; a free joker adds none.
pub open spec fn ranks_of(cards: Seq<Card>) -> Set<u8> {
    Set::new(|n: u8| exists|i: int| ranked_at(cards, i, n))
}

/// The suits that the cards count as; a free joker adds none.
pub open spec fn suits_of(cards: Seq<Card>) -> Set<Suit> {
    Set::new(|s: Suit| s != Suit::UnSuited && exists|i: int| suited_at(cards, i, s))
}

/// Whether all cards that count as a rank count as the same one.
pub open spec fn same_number(cards: Seq<Card>) -> bool {
    forall|i: int, j: int, n: u8, m: u8|
        ranked_at(cards, i, n) && ranked_at(cards, j, m) ==> n == m
}

/// The rank of the first card that counts as one, or 14 where none does.
pub open spec fn number_of(cards: Seq<Card>) -> u8
    decreases cards.len(),
{
    if cards.len() == 0 {
        14
    } else {
        match cards[0].rank_of() {
            Some(n) => n,
            None => number_of(cards.drop_first()),
        }
    }
}

/// Whether every suit of `lhs` is among the suits of `rhs`.
pub open spec fn suits_match(lhs: Seq<Card>, rhs: Seq<Card>) -> bool {
    suits_of(lhs).subset_of(suits_of(rhs))
}

/// The rank of a group is that of its first card after the free jokers that
/// lead it.
pub proof fn lemma_number_of_skips_jokers(cards: Seq<Card>, i: int)
    requires
        0 <= i <= cards.len(),
        forall|k: int| 0 <= k < i ==> cards[k].rank_of() is None,
    ensures
        number_of(cards) == number_of(cards.skip(i)),
    decreases i,
{
    if i > 0 {
        let rest = cards.drop_first();
        assert forall|k: int| 0 <= k < i - 1 implies rest[k].rank_of() is None by {
            assert(rest[k] == cards[k + 1]);
        }
        lemma_number_of_skips_jokers(rest, i - 1);
        assert(rest.skip(i - 1) =~= cards.skip(i));
    } else {
        assert(cards.skip(0) =~= cards);
    }
}

/// In a group of one rank, every card that counts as a rank counts as the
/// group's.
pub proof fn lemma_same_number_rank(cards: Seq<Card>, i: int)
    requires
        same_number(cards),
        0 <= i < cards.len(),
        cards[i].rank_of() is Some,
    ensures
        cards[i].rank_of() == Some(number_of(cards)),
    decreases cards.len(),
{
    let n = cards[i].rank_of()->0;
    assert(ranked_at(cards, i, n));
    match cards[0].rank_of() {
        Some(m) => {
            assert(ranked_at(cards, 0, m));
        },
        None => {
            let rest = cards.drop_first();
            assert forall|a: int, b: int, x: u8, y: u8|
                ranked_at(rest, a, x) && ranked_at(rest, b, y) implies x == y by {
                assert(ranked_at(cards, a + 1, x));
                assert(ranked_at(cards, b + 1, y));
            }
            assert(rest[i - 1] == cards[i]);
            lemma_same_number_rank(rest, i - 1);
        },
    }
}

pub fn is_same_number(cards: &[Card]) -> (r: bool)
    ensures
        r == same_number(cards@),
{
    let mut first: Option<u8> = None;
    let mut i: usize = 0;
    while i < cards.len()
        invariant
            i <= cards.len(),
            first matches Some(n) ==> exists|k: int| ranked_at(cards@, k, n),
            forall|k: int, n: u8| 0 <= k < i && ranked_at(cards@, k, n) ==> first == Some(n),
        decreases cards.len() - i,
    {
        match cards[i].number() {
            Some(n) => {
                assert(ranked_at(cards@, i as int, n));
                match first {
                    Some(m) => {
                        if m != n {
                            return false;
                        }
                    },
                    None => {
                        first = Some(n);
                    },
                }
            },
            None => {},
        }
        i += 1;
    }
    true
}

pub fn numbers(cards: &[Card]) -> (r: HashSet<u8>)
    ensures
        r@ == ranks_of(cards@),
{
    broadcast use vstd::std_specs::hash::group_hash_axioms;

    let mut r: HashSet<u8> = HashSet::new();
    let mut i: usize = 0;
    while i < cards.len()
        invariant
            i <= cards.len(),
            forall|n: u8| r@.contains(n) <==> exists|k: int| k < i && ranked_at(cards@, k, n),
        decreases cards.len() - i,
    {
        let ghost before = r@;
        match cards[i].number() {
            Some(n) => {
                r.insert(n);
                assert(ranked_at(cards@, i as int, n));
            },
            None => {},
        }
        assert forall|n: u8| r@.contains(n) <==> exists|k: int|
            k < i + 1 && ranked_at(cards@, k, n) by {
            if r@.contains(n) {
                if before.contains(n) {
                    let k = choose|k: int| k < i && ranked_at(cards@, k, n);
                    assert(k < i + 1 && ranked_at(cards@, k, n));
                } else {
                    assert(ranked_at(cards@, i as int, n));
                }
            }
            if exists|k: int| k < i + 1 && ranked_at(cards@, k, n) {
                let k = choose|k: int| k < i + 1 && ranked_at(cards@, k, n);
                if k < i {
                    assert(before.contains(n));
                }
            }
        }
        i += 1;
    }
    assert(r@ =~= ranks_of(cards@));
    r
}

/// The rank of a group of cards, 14 where it holds free jokers only.
pub fn number(cards: &[Card]) -> (n: u8)
    ensures
        n == number_of(cards@),
{
    let mut i: usize = 0;
    while i < cards.len()
        invariant
            i <= cards.len(),
            forall|k: int| 0 <= k < i ==> cards@[k].rank_of() is None,
        decreases cards.len() - i,
    {
        match cards[i].number() {
            Some(n) => {
                proof {
                    lemma_number_of_skips_jokers(cards@, i as int);
                    assert(cards@.skip(i as int)[0] == cards@[i as int]);
                }
                return n;
            },
            None => {},
        }
        i += 1;
    }
    proof {
        lemma_number_of_skips_jokers(cards@, cards@.len() as int);
    }
    14
}

pub fn suits(cards: &[Card]) -> (r: SuitSet)
    ensures
        r@ == suits_of(cards@),
{
    let mut r = SuitSet::new();
    let mut i: usize = 0;
    while i < cards.len()
        invariant
            i <= cards.len(),
            forall|s: Suit|
                r@.contains(s) <==> s != Suit::UnSuited && exists|k: int|
                    k < i && suited_at(cards@, k, s),
        decreases cards.len() - i,
    {
        let ghost before = r@;
        let t = cards[i].suit();
        r.insert(t);
        assert(suited_at(cards@, i as int, t));
        assert forall|s: Suit|
            r@.contains(s) <==> s != Suit::UnSuited && exists|k: int|
                k < i + 1 && suited_at(cards@, k, s) by {
            if r@.contains(s) {
                if before.contains(s) {
                    let k = choose|k: int| k < i && suited_at(cards@, k, s);
                    assert(k < i + 1 && suited_at(cards@, k, s));
                } else {
                    assert(suited_at(cards@, i as int, s));
                }
            }
            if s != Suit::UnSuited && exists|k: int| k < i + 1 && suited_at(cards@, k, s) {
                let k = choose|k: int| k < i + 1 && suited_at(cards@, k, s);
                if k < i {
                    assert(before.contains(s));
                }
            }
        }
        i += 1;
    }
    assert(r@ =~= suits_of(cards@));
    r
}

/// Whether `rhs` shows every suit that `lhs` shows.
pub fn match_suits(lhs: &[Card], rhs: &[Card]) -> (r: bool)
    ensures
        r == suits_match(lhs@, rhs@),
{
    let l = suits(lhs);
    let r = suits(rhs);
    r.is_superset(&l)
}

fn rank_from_letter(c: char) -> (r: Option<u8>)
    ensures
        r == rank_of_letter(c),
{
    if c == 'A' {
        Some(1)
    } else if c == '2' {
        Some(2)
    } else if c == '3' {
        Some(3)
    } else if c == '4' {
        Some(4)
    } else if c == '5' {
        Some(5)
    } else if c == '6' {
        Some(6)
    } else if c == '7' {
        Some(7)
    } else if c == '8' {
        Some(8)
    } else if c == '9' {
        Some(9)
    } else if c == 'T' {
        Some(10)
    } else if c == 'J' {
        Some(11)
    } else if c == 'Q' {
        Some(12)
    } else if c == 'K' {
        Some(13)
    } else {
        None
    }
}

/// A card of the deck that no joker stands for is read back from its own
/// text: a numbered card of rank 1 to 13 with a suit, and the free joker.
pub proof fn lemma_text_round_trip(card: Card)
    requires
        card.wf(),
        card is Number || card == Card::Joker(None),
    ensures
        parse_card(card.text_of()) == Ok::<Card, ParseError>(card),
{
    match card {
        Card::Number(s, n) => {
            assert(rank_text(n).len() == 1);
            assert(card.text_of().len() == 2);
            assert(card.text_of()[0] == rank_text(n)[0]);
            assert(card.text_of()[1] == s.letter());
            assert(card.text_of() != joker_text());
        },
        _ => {},
    }
}

} // verus!
