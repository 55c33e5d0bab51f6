//! The state of a match and its turn order.

use crate::card::Card;
use crate::card::{number, number_of};
use crate::deck::{arranged, copy_cards, holds_all, remove_items, without_all, Deck};
use crate::effect::{Effect, EffectView};
use crate::error::GameError;
use vstd::prelude::*;

verus! {

/// The kinds of question that the game puts to players.
#[derive(Debug, Clone, Copy, PartialEq, Eq, Hash, Structural)]
pub enum PromptKind {
    /// Take cards from the discard pile.
    Select4,
    /// Hand cards to the player on the right.
    Select7,
    /// Take cards from the excluded pile.
    Select13,
    /// Contest the play with an ace.
    UseOneChance,
}

/// A question that waits for the answers of some players.
#[derive(Debug, PartialEq, Eq, Hash)]
pub struct Prompt {
    pub kind: PromptKind,
    pub player_ids: Vec<String>,
    pub question: String,
    pub options: Vec<String>,
}

/// What a `Prompt` holds, as plain values.
pub struct PromptView {
    pub kind: PromptKind,
    pub player_ids: Seq<Seq<char>>,
    pub question: Seq<char>,
    pub options: Seq<Seq<char>>,
}

/// The name of a pile.
#[derive(Debug, PartialEq, Eq, Hash)]
pub enum FieldKey {
    /// The discard pile.
    Trushes,
    /// The cards that have left the match.
    Excluded,
    /// The hand of a player.
    Hands(String),
}

/// What a `FieldKey` holds, as plain values.
pub enum FieldKeyView {
    Trushes,
    Excluded,
    Hands(Seq<char>),
}

/// The texts of a list of strings.
pub open spec fn texts(v: Seq<String>) -> Seq<Seq<char>> {
    Seq::new(v.len(), |i: int| v[i]@)
}

/// The text of a string that may be missing.
pub open spec fn maybe_text(o: Option<String>) -> Option<Seq<char>> {
    match o {
        Some(s) => Some(s@),
        None => None,
    }
}

/// The texts of a list of strings that may be missing.
pub open spec fn maybe_texts(v: Seq<Option<String>>) -> Seq<Option<Seq<char>>> {
    Seq::new(v.len(), |i: int| maybe_text(v[i]))
}

/// The cards of a list of piles.
pub open spec fn piles(v: Seq<Vec<Card>>) -> Seq<Seq<Card>> {
    Seq::new(v.len(), |i: int| v[i]@)
}

/// The cards of a list of decks.
pub open spec fn decks(v: Seq<Deck>) -> Seq<Seq<Card>> {
    Seq::new(v.len(), |i: int| v[i]@)
}

/// The contents of a list of questions.
pub open spec fn prompts(v: Seq<Prompt>) -> Seq<PromptView> {
    Seq::new(v.len(), |i: int| v[i]@)
}

impl View for Prompt {
    type V = PromptView;

    open spec fn view(&self) -> PromptView {
        PromptView {
            kind: self.kind,
            player_ids: texts(self.player_ids@),
            question: self.question@,
            options: texts(self.options@),
        }
    }
}

impl View for FieldKey {
    type V = FieldKeyView;

    open spec fn view(&self) -> FieldKeyView {
        match self {
            FieldKey::Trushes => FieldKeyView::Trushes,
            FieldKey::Excluded => FieldKeyView::Excluded,
            FieldKey::Hands(id) => FieldKeyView::Hands(id@),
        }
    }
}

/// A copy of a list of strings.
pub fn copy_texts(v: &Vec<String>) -> (r: Vec<String>)
    ensures
        texts(r@) == texts(v@),
{
    let mut r: Vec<String> = Vec::new();
    let mut i: usize = 0;
    while i < v.len()
        invariant
            i <= v.len(),
            r@.len() == i,
            forall|k: int| 0 <= k < i ==> r@[k]@ == v@[k]@,
        decreases v.len() - i,
    {
        r.push(v[i].clone());
        i += 1;
    }
    assert(texts(r@) =~= texts(v@));
    r
}

/// A copy of a string that may be missing.
pub fn copy_maybe_text(o: &Option<String>) -> (r: Option<String>)
    ensures
        maybe_text(r) == maybe_text(*o),
{
    match o {
        Some(s) => Some(s.clone()),
        None => None,
    }
}

/// A copy of a list of piles.
pub fn copy_piles(v: &Vec<Vec<Card>>) -> (r: Vec<Vec<Card>>)
    ensures
        piles(r@) == piles(v@),
{
    let mut r: Vec<Vec<Card>> = Vec::new();
    let mut i: usize = 0;
    while i < v.len()
        invariant
            i <= v.len(),
            r@.len() == i,
            forall|k: int| 0 <= k < i ==> r@[k]@ == v@[k]@,
        decreases v.len() - i,
    {
        r.push(copy_cards(v[i].as_slice()));
        i += 1;
    }
    assert(piles(r@) =~= piles(v@));
    r
}

/// Whether the list holds the text.
pub fn holds_text(v: &Vec<String>, s: &str) -> (r: bool)
    ensures
        r == texts(v@).contains(s@),
{
    let key: String = s.to_owned();
    let mut i: usize = 0;
    while i < v.len()
        invariant
            i <= v.len(),
            key@ == s@,
            forall|k: int| 0 <= k < i ==> texts(v@)[k] != s@,
        decreases v.len() - i,
    {
        if v[i] == key {
            assert(texts(v@)[i as int] == s@);
            return true;
        }
        i += 1;
    }
    false
}

impl Clone for Deck {
    fn clone(&self) -> (r: Deck)
        ensures
            r@ == self@,
    {
        Deck(copy_cards(self.0.as_slice()))
    }
}

impl Clone for Prompt {
    fn clone(&self) -> (r: Prompt)
        ensures
            r@ == self@,
    {
        Prompt {
            kind: self.kind,
            player_ids: copy_texts(&self.player_ids),
            question: self.question.clone(),
            options: copy_texts(&self.options),
        }
    }
}

impl Clone for FieldKey {
    fn clone(&self) -> (r: FieldKey)
        ensures
            r@ == self@,
    {
        match self {
            FieldKey::Trushes => FieldKey::Trushes,
            FieldKey::Excluded => FieldKey::Excluded,
            FieldKey::Hands(id) => FieldKey::Hands(id.clone()),
        }
    }
}

impl Clone for Game {
    fn clone(&self) -> (r: Game)
        ensures
            r@ == self@,
    {
        let mut prompt: Vec<Prompt> = Vec::new();
        let mut i: usize = 0;
        while i < self.prompt.len()
            invariant
                i <= self.prompt.len(),
                prompt@.len() == i,
                forall|k: int| 0 <= k < i ==> prompt@[k]@ == self.prompt@[k]@,
            decreases self.prompt.len() - i,
        {
            prompt.push(self.prompt[i].clone());
            i += 1;
        }
        let mut hands: Vec<Deck> = Vec::new();
        let mut j: usize = 0;
        while j < self.hands.len()
            invariant
                j <= self.hands.len(),
                hands@.len() == j,
                forall|k: int| 0 <= k < j ==> hands@[k]@ == self.hands@[k]@,
            decreases self.hands.len() - j,
        {
            hands.push(self.hands[j].clone());
            j += 1;
        }
        let mut answers: Vec<Option<String>> = Vec::new();
        let mut a: usize = 0;
        while a < self.answers.len()
            invariant
                a <= self.answers.len(),
                answers@.len() == a,
                forall|k: int| 0 <= k < a ==> maybe_text(answers@[k]) == maybe_text(self.answers@[k]),
            decreases self.answers.len() - a,
        {
            answers.push(copy_maybe_text(&self.answers[a]));
            a += 1;
        }
        let r = Game {
            prompt,
            hands,
            trushes: self.trushes.clone(),
            excluded: self.excluded.clone(),
            river: copy_piles(&self.river),
            current: copy_maybe_text(&self.current),
            last_served_player_id: copy_maybe_text(&self.last_served_player_id),
            effect: self.effect.clone(),
            players: copy_texts(&self.players),
            selects: copy_piles(&self.selects),
            answers,
        };
        proof {
            assert(r@.prompt =~= self@.prompt);
            assert(r@.hands =~= self@.hands);
            assert(r@.answers =~= self@.answers);
        }
        r
    }
}

impl FieldKey {
    /// The name of the pile as text: a hand goes by its player.
    pub fn to_string(&self) -> (t: String)
        ensures
            t@ == match self@ {
                FieldKeyView::Trushes => "trushes"@,
                FieldKeyView::Excluded => "excluded"@,
                FieldKeyView::Hands(id) => id,
            },
    {
        match self {
            FieldKey::Trushes => String::from_str("trushes"),
            FieldKey::Excluded => String::from_str("excluded"),
            FieldKey::Hands(id) => id.clone(),
        }
    }
}

/// The state of a match. The players sit in the order of `players`; the hand,
/// the chosen cards and the answer of the player at a seat stand at the same
/// place of `hands`, `selects` and `answers`.
#[derive(Debug)]
pub struct Game {
    /// The questions that wait for answers, the one in force first.
    pub prompt: Vec<Prompt>,
    /// The hand of each player.
    pub hands: Vec<Deck>,
    /// The discard pile.
    pub trushes: Deck,
    /// The cards that have left the match.
    pub excluded: Deck,
    /// The plays of the current chain, the latest last.
    pub river: Vec<Vec<Card>>,
    /// The player whose turn it is.
    pub current: Option<String>,
    /// The player who made the latest play that was accepted.
    pub last_served_player_id: Option<String>,
    pub effect: Effect,
    /// The players in the order in which they sit.
    pub players: Vec<String>,
    /// The cards that each player has chosen for the next action.
    pub selects: Vec<Vec<Card>>,
    /// The answer of each player to the question in force.
    pub answers: Vec<Option<String>>,
}

/// What a `Game` holds, as plain values.
#[verifier::ext_equal]
pub struct GameView {
    pub prompt: Seq<PromptView>,
    pub hands: Seq<Seq<Card>>,
    pub trushes: Seq<Card>,
    pub excluded: Seq<Card>,
    pub river: Seq<Seq<Card>>,
    pub current: Option<Seq<char>>,
    pub last_served_player_id: Option<Seq<char>>,
    pub effect: EffectView,
    pub players: Seq<Seq<char>>,
    pub selects: Seq<Seq<Card>>,
    pub answers: Seq<Option<Seq<char>>>,
}

impl View for Game {
    type V = GameView;

    open spec fn view(&self) -> GameView {
        GameView {
            prompt: prompts(self.prompt@),
            hands: decks(self.hands@),
            trushes: self.trushes@,
            excluded: self.excluded@,
            river: piles(self.river@),
            current: maybe_text(self.current),
            last_served_player_id: maybe_text(self.last_served_player_id),
            effect: self.effect@,
            players: texts(self.players@),
            selects: piles(self.selects@),
            answers: maybe_texts(self.answers@),
        }
    }
}

/// Whether `i` is the first seat at which `id` sits.
pub open spec fn seat_at(players: Seq<Seq<char>>, id: Seq<char>, i: int) -> bool {
    &&& 0 <= i < players.len()
    &&& players[i] == id
    &&& forall|k: int| 0 <= k < i ==> players[k] != id
}

/// The seats whose hands hold cards, in seating order.
pub open spec fn active_in(hands: Seq<Seq<Card>>) -> Seq<int>
    decreases hands.len(),
{
    if hands.len() == 0 {
        Seq::empty()
    } else if hands.last().len() > 0 {
        active_in(hands.drop_last()).push(hands.len() - 1)
    } else {
        active_in(hands.drop_last())
    }
}

impl GameView {
    /// Every player has a hand, a list of chosen cards and a place for an
    /// answer.
    pub open spec fn wf(self) -> bool {
        &&& self.hands.len() == self.players.len()
        &&& self.selects.len() == self.players.len()
        &&& self.answers.len() == self.players.len()
    }

    /// The match before the cards are dealt.
    pub open spec fn fresh(players: Seq<Seq<char>>) -> GameView {
        GameView {
            prompt: Seq::empty(),
            hands: Seq::new(players.len(), |i: int| Seq::empty()),
            trushes: Seq::empty(),
            excluded: Seq::empty(),
            river: Seq::empty(),
            current: None,
            last_served_player_id: None,
            effect: EffectView::fresh(),
            players: players,
            selects: Seq::new(players.len(), |i: int| Seq::empty()),
            answers: Seq::new(players.len(), |i: int| None),
        }
    }

    /// The first seat at which the player sits.
    pub open spec fn seat_of(self, id: Seq<char>) -> Option<int> {
        if self.players.contains(id) {
            Some(choose|i: int| seat_at(self.players, id, i))
        } else {
            None
        }
    }

    /// The players who hold cards, in seating order.
    pub open spec fn active_player_ids(self) -> Seq<Seq<char>> {
        active_in(self.hands).map_values(|s: int| self.players[s])
    }

    /// The pile of the given name.
    pub open spec fn field(self, key: FieldKeyView) -> Result<Seq<Card>, GameError> {
        match key {
            FieldKeyView::Trushes => Ok(self.trushes),
            FieldKeyView::Excluded => Ok(self.excluded),
            FieldKeyView::Hands(id) => match self.seat_of(id) {
                Some(i) => Ok(self.hands[i]),
                None => Err(GameError::FieldNotFound),
            },
        }
    }

    /// The match with other cards in the pile of the given name.
    pub open spec fn with_field(self, key: FieldKeyView, cards: Seq<Card>) -> GameView {
        match key {
            FieldKeyView::Trushes => GameView { trushes: cards, ..self },
            FieldKeyView::Excluded => GameView { excluded: cards, ..self },
            FieldKeyView::Hands(id) => match self.seat_of(id) {
                Some(i) => GameView { hands: self.hands.update(i, cards), ..self },
                None => self,
            },
        }
    }

    /// Moves the cards from one pile to the end of another. Both piles must
    /// exist and the first must hold the cards.
    pub open spec fn transfer(
        self,
        from: FieldKeyView,
        to: FieldKeyView,
        cards: Seq<Card>,
    ) -> Result<GameView, GameError> {
        match self.field(from) {
            Err(e) => Err(e),
            Ok(source) => if !holds_all(source, cards) {
                Err(GameError::NotFound)
            } else {
                let taken = self.with_field(from, without_all(source, cards));
                match taken.field(to) {
                    Err(e) => Err(e),
                    Ok(target) => Ok(taken.with_field(to, target + cards)),
                }
            },
        }
    }

    /// The cards of the plays on the river, the earliest play first.
    pub open spec fn river_cards(self) -> Seq<Card> {
        spilled(self.river)
    }

    /// Closes the chain: the cards of the river go to the end of the pile
    /// `to`, the river is empty, and of the rules only the lasting reversal
    /// stays in force.
    pub open spec fn flush_river(self, to: FieldKeyView) -> Result<GameView, GameError> {
        match self.field(to) {
            Err(e) => Err(e),
            Ok(target) => Ok(
                GameView {
                    river: Seq::empty(),
                    effect: self.effect.next_chain(),
                    ..self.with_field(to, target + self.river_cards())
                },
            ),
        }
    }

    /// The rank of the play on top of the river where that rank's rule is in
    /// force.
    pub open spec fn top_rule(self) -> Option<u8> {
        if self.river.len() > 0 && self.effect.active(number_of(self.river.last())) {
            Some(number_of(self.river.last()))
        } else {
            None
        }
    }

    /// The steps from the player who acted to the player who is next: past
    /// as many players as a play of fives has cards, none after an eight or
    /// an ace, else one.
    pub open spec fn turn_steps(self) -> int {
        if self.top_rule() == Some(5u8) {
            self.river.last().len() as int + 1
        } else if self.top_rule() == Some(8u8) || self.top_rule() == Some(1u8) {
            0
        } else {
            1
        }
    }

    /// The pile that takes the cards of the river when the chain closes: the
    /// excluded pile after a two, else the discard pile.
    pub open spec fn flush_target(self) -> FieldKeyView {
        if self.top_rule() == Some(2u8) {
            FieldKeyView::Excluded
        } else {
            FieldKeyView::Trushes
        }
    }

    /// Ends the turn of the current player: the match is over where that
    /// player is out of cards and at most one other holds any; else the turn
    /// goes on round the table, and the chain closes where it reaches the
    /// player who played last.
    pub open spec fn end_turn(self) -> Result<GameView, GameError> {
        match self.current {
            None => Err(GameError::FieldNotFound),
            Some(id) => match self.seat_of(id) {
                None => Err(GameError::FieldNotFound),
                Some(seat) => if self.hands[seat].len() == 0 && active_in(self.hands).len()
                    <= 1 {
                    Err(GameError::MatchEnded)
                } else {
                    let next = self.players[self.relative_seat(seat, self.turn_steps())];
                    let moved = GameView { current: Some(next), ..self };
                    if self.last_served_player_id == Some(next) {
                        moved.flush_river(self.flush_target())
                    } else {
                        Ok(moved)
                    }
                },
            },
        }
    }

    /// The match with the pile of the given name sorted by strength.
    pub open spec fn arrange_field(self, key: FieldKeyView) -> GameView {
        match self.field(key) {
            Ok(cards) => self.with_field(key, arranged(cards)),
            Err(_) => self,
        }
    }

    /// Moves the cards from one pile to another, which is then sorted by
    /// strength.
    pub open spec fn take_cards(
        self,
        from: FieldKeyView,
        to: FieldKeyView,
        cards: Seq<Card>,
    ) -> Result<GameView, GameError> {
        match self.transfer(from, to, cards) {
            Err(e) => Err(e),
            Ok(g) => Ok(g.arrange_field(to)),
        }
    }

    /// Whether the player has answered the question in force.
    pub open spec fn has_answered(self, player: Seq<char>) -> bool {
        match self.seat_of(player) {
            Some(i) => self.answers[i] is Some,
            None => false,
        }
    }

    /// Whether the question in force waits for the player's answer.
    pub open spec fn pending_for(self, player: Seq<char>) -> bool {
        self.prompt.len() > 0 && self.prompt[0].player_ids.contains(player) && !self.has_answered(
            player,
        )
    }

    /// The seat that is `d` steps round the table from `seat`, counting the
    /// seats that hold cards only. A seat without cards stands between its
    /// neighbours: one step on from it is the next seat with cards, and no
    /// step is taken as that one step.
    pub open spec fn relative_seat(self, seat: int, d: int) -> int {
        let active = active_in(self.hands);
        let place = active_in(self.hands.take(seat)).len();
        let steps = if self.hands[seat].len() > 0 || d <= 0 {
            d
        } else {
            d - 1
        };
        active[(place + steps) % (active.len() as int)]
    }

    /// The player who is `d` steps round the table from the given one.
    pub open spec fn relative_player(self, id: Seq<char>, d: int) -> Result<
        Seq<char>,
        GameError,
    > {
        match self.seat_of(id) {
            None => Err(GameError::FieldNotFound),
            Some(seat) => if active_in(self.hands).len() == 0 {
                Err(GameError::MatchEnded)
            } else {
                Ok(self.players[self.relative_seat(seat, d)])
            },
        }
    }
}

/// The cards of a list of plays, the earliest play first.
pub open spec fn spilled(river: Seq<Seq<Card>>) -> Seq<Card>
    decreases river.len(),
{
    if river.len() == 0 {
        Seq::empty()
    } else {
        spilled(river.drop_last()) + river.last()
    }
}

/// Where a pile stands in the game.
#[derive(Clone, Copy)]
enum Slot {
    Trushes,
    Excluded,
    Hand(usize),
}

impl GameView {
    spec fn pile(self, slot: Slot) -> Seq<Card> {
        match slot {
            Slot::Trushes => self.trushes,
            Slot::Excluded => self.excluded,
            Slot::Hand(i) => self.hands[i as int],
        }
    }

    spec fn with_pile(self, slot: Slot, cards: Seq<Card>) -> GameView {
        match slot {
            Slot::Trushes => GameView { trushes: cards, ..self },
            Slot::Excluded => GameView { excluded: cards, ..self },
            Slot::Hand(i) => GameView { hands: self.hands.update(i as int, cards), ..self },
        }
    }

    spec fn names(self, slot: Slot, key: FieldKeyView) -> bool {
        match slot {
            Slot::Trushes => key == FieldKeyView::Trushes,
            Slot::Excluded => key == FieldKeyView::Excluded,
            Slot::Hand(i) => key matches FieldKeyView::Hands(id) && self.seat_of(id) == Some(
                i as int,
            ) && i < self.hands.len(),
        }
    }
}

/// A number within one round of the table is its own remainder, up to one
/// round.
proof fn lemma_wrap(x: int, n: int)
    requires
        n > 0,
    ensures
        0 <= x < n ==> x % n == x,
        n <= x < 2 * n ==> x % n == x - n,
        -n <= x < 0 ==> x % n == x + n,
{
    if 0 <= x < n {
        vstd::arithmetic::div_mod::lemma_small_mod(x as nat, n as nat);
    }
    if n <= x < 2 * n {
        vstd::arithmetic::div_mod::lemma_small_mod((x - n) as nat, n as nat);
        vstd::arithmetic::div_mod::lemma_mod_add_multiples_vanish(x - n, n);
    }
    if -n <= x < 0 {
        vstd::arithmetic::div_mod::lemma_small_mod((x + n) as nat, n as nat);
        vstd::arithmetic::div_mod::lemma_mod_add_multiples_vanish(x, n);
    }
}

/// Steps round the table may be taken in parts, each reduced to one round.
proof fn lemma_fold_steps(p: int, a: int, b: int, n: int)
    requires
        n > 0,
    ensures
        (((p % n + a % n) % n) + b % n) % n == (p + a + b) % n,
        (((p % n - a % n) % n) - b % n) % n == (p - a - b) % n,
{
    vstd::arithmetic::div_mod::lemma_add_mod_noop(p, a, n);
    vstd::arithmetic::div_mod::lemma_add_mod_noop(p + a, b, n);
    vstd::arithmetic::div_mod::lemma_sub_mod_noop(p, a, n);
    vstd::arithmetic::div_mod::lemma_sub_mod_noop(p - a, b, n);
}

pub(crate) fn wrap_add(a: usize, b: usize, n: usize) -> (r: usize)
    requires
        a < n,
        b < n,
    ensures
        r == (a + b) % (n as int),
        r < n,
{
    proof {
        lemma_wrap(a + b, n as int);
    }
    if b >= n - a {
        b - (n - a)
    } else {
        a + b
    }
}

pub(crate) fn wrap_sub(a: usize, b: usize, n: usize) -> (r: usize)
    requires
        a < n,
        b < n,
    ensures
        r == (a - b) % (n as int),
        r < n,
{
    proof {
        lemma_wrap(a - b, n as int);
    }
    if a >= b {
        a - b
    } else {
        n - (b - a)
    }
}

/// The first seat of a player is one seat only.
pub proof fn lemma_seat_unique(g: GameView, id: Seq<char>, i: int)
    requires
        seat_at(g.players, id, i),
    ensures
        g.seat_of(id) == Some(i),
{
    assert(g.players.contains(id));
    let j = choose|j: int| seat_at(g.players, id, j);
    if i < j {
        assert(g.players[i] != id);
    }
    if j < i {
        assert(g.players[j] != id);
    }
}

/// The seats with cards are seats of the table, in rising order.
pub proof fn lemma_active_in(hands: Seq<Seq<Card>>)
    ensures
        active_in(hands).len() <= hands.len(),
        forall|k: int|
            0 <= k < active_in(hands).len() ==> 0 <= #[trigger] active_in(hands)[k] < hands.len()
                && hands[active_in(hands)[k]].len() > 0,
        forall|j: int, k: int|
            0 <= j < k < active_in(hands).len() ==> active_in(hands)[j] < active_in(hands)[k],
        forall|s: int|
            0 <= s < hands.len() && hands[s].len() > 0 ==> active_in(hands).contains(s),
    decreases hands.len(),
{
    if hands.len() > 0 {
        let rest = hands.drop_last();
        lemma_active_in(rest);
        let a = active_in(hands);
        let b = active_in(rest);
        assert forall|s: int| 0 <= s < hands.len() && hands[s].len() > 0 implies a.contains(
            s,
        ) by {
            if s < rest.len() {
                assert(rest[s] == hands[s]);
                assert(b.contains(s));
                let k = choose|k: int| 0 <= k < b.len() && b[k] == s;
                assert(a[k] == s);
            } else {
                assert(a[a.len() - 1] == s);
            }
        }
        assert forall|k: int| 0 <= k < a.len() implies 0 <= #[trigger] a[k] < hands.len()
            && hands[a[k]].len() > 0 by {
            if k < b.len() {
                assert(a[k] == b[k]);
                assert(rest[b[k]] == hands[b[k]]);
            }
        }
    }
}

/// The seats with cards before a seat lead the seats with cards of the table.
pub proof fn lemma_active_prefix(hands: Seq<Seq<Card>>, seat: int)
    requires
        0 <= seat <= hands.len(),
    ensures
        active_in(hands.take(seat)).len() <= active_in(hands).len(),
        forall|k: int|
            0 <= k < active_in(hands.take(seat)).len() ==> active_in(hands.take(seat))[k]
                == active_in(hands)[k],
        seat < hands.len() && hands[seat].len() > 0 ==> active_in(hands.take(seat)).len()
            < active_in(hands).len() && active_in(hands)[active_in(hands.take(seat)).len() as int]
            == seat,
    decreases hands.len() - seat,
{
    if seat == hands.len() {
        assert(hands.take(seat) =~= hands);
    } else {
        lemma_active_prefix(hands, seat + 1);
        assert(hands.take(seat + 1).drop_last() =~= hands.take(seat));
        assert(hands.take(seat + 1).last() == hands[seat]);
    }
}

impl Game {
    /// Every player has a hand, a list of chosen cards and a place for an
    /// answer.
    pub open spec fn wf(&self) -> bool {
        self@.wf()
    }

    /// A match of the given players, before the cards are dealt.
    pub fn new(player_ids: Vec<String>) -> (g: Game)
        ensures
            g.wf(),
            g@ == GameView::fresh(texts(player_ids@)),
    {
        let mut hands: Vec<Deck> = Vec::new();
        let mut selects: Vec<Vec<Card>> = Vec::new();
        let mut answers: Vec<Option<String>> = Vec::new();
        let mut i: usize = 0;
        while i < player_ids.len()
            invariant
                i <= player_ids.len(),
                hands@.len() == i,
                selects@.len() == i,
                answers@.len() == i,
                forall|k: int| 0 <= k < i ==> hands@[k]@ == Seq::<Card>::empty(),
                forall|k: int| 0 <= k < i ==> selects@[k]@ == Seq::<Card>::empty(),
                forall|k: int| 0 <= k < i ==> answers@[k] is None,
            decreases player_ids.len() - i,
        {
            hands.push(Deck::new(Vec::new()));
            selects.push(Vec::new());
            answers.push(None);
            i += 1;
        }
        let g = Game {
            prompt: Vec::new(),
            hands,
            trushes: Deck::new(Vec::new()),
            excluded: Deck::new(Vec::new()),
            river: Vec::new(),
            current: None,
            last_served_player_id: None,
            effect: Effect::new(),
            players: player_ids,
            selects,
            answers,
        };
        proof {
            let v = GameView::fresh(texts(player_ids@));
            assert(g@.prompt =~= v.prompt);
            assert(g@.hands =~= v.hands);
            assert(g@.river =~= v.river);
            assert(g@.selects =~= v.selects);
            assert(g@.answers =~= v.answers);
        }
        g
    }

    /// The first seat at which the player sits.
    pub fn seat_of(&self, player_id: &str) -> (r: Option<usize>)
        ensures
            match r {
                Some(i) => self@.seat_of(player_id@) == Some(i as int) && i < self.players@.len(),
                None => self@.seat_of(player_id@) is None,
            },
    {
        let key: String = player_id.to_owned();
        let mut i: usize = 0;
        while i < self.players.len()
            invariant
                i <= self.players.len(),
                key@ == player_id@,
                forall|k: int| 0 <= k < i ==> self@.players[k] != player_id@,
            decreases self.players.len() - i,
        {
            if self.players[i] == key {
                proof {
                    lemma_seat_unique(self@, player_id@, i as int);
                }
                return Some(i);
            }
            i += 1;
        }
        assert(!self@.players.contains(player_id@));
        None
    }

    /// The pile of the given name.
    pub fn field(&self, id: &FieldKey) -> (r: Result<&Deck, GameError>)
        requires
            self.wf(),
        ensures
            match r {
                Ok(d) => self@.field(id@) == Ok::<Seq<Card>, GameError>(d@),
                Err(e) => self@.field(id@) == Err::<Seq<Card>, GameError>(e),
            },
    {
        match id {
            FieldKey::Trushes => Ok(&self.trushes),
            FieldKey::Excluded => Ok(&self.excluded),
            FieldKey::Hands(player_id) => match self.seat_of(player_id.as_str()) {
                Some(i) => {
                    assert(self@.hands.len() == self@.players.len());
                    assert(self@.hands[i as int] == self.hands@[i as int]@);
                    Ok(&self.hands[i])
                },
                None => Err(GameError::FieldNotFound),
            },
        }
    }

    fn locate(&self, key: &FieldKey) -> (r: Result<Slot, GameError>)
        requires
            self.wf(),
        ensures
            match r {
                Ok(slot) => self@.names(slot, key@),
                Err(e) => self@.field(key@) == Err::<Seq<Card>, GameError>(e),
            },
    {
        match key {
            FieldKey::Trushes => Ok(Slot::Trushes),
            FieldKey::Excluded => Ok(Slot::Excluded),
            FieldKey::Hands(player_id) => match self.seat_of(player_id.as_str()) {
                Some(i) => Ok(Slot::Hand(i)),
                None => Err(GameError::FieldNotFound),
            },
        }
    }

    fn read_pile(&self, slot: Slot) -> (r: Vec<Card>)
        requires
            slot matches Slot::Hand(i) ==> i < self.hands@.len(),
        ensures
            r@ == self@.pile(slot),
    {
        match slot {
            Slot::Trushes => copy_cards(self.trushes.0.as_slice()),
            Slot::Excluded => copy_cards(self.excluded.0.as_slice()),
            Slot::Hand(i) => copy_cards(self.hands[i].0.as_slice()),
        }
    }

    fn write_pile(&mut self, slot: Slot, cards: Vec<Card>)
        requires
            slot matches Slot::Hand(i) ==> i < old(self).hands@.len(),
        ensures
            final(self)@ == old(self)@.with_pile(slot, cards@),
            final(self).hands@.len() == old(self).hands@.len(),
    {
        match slot {
            Slot::Trushes => {
                self.trushes = Deck(cards);
            },
            Slot::Excluded => {
                self.excluded = Deck(cards);
            },
            Slot::Hand(i) => {
                self.hands.set(i, Deck(cards));
                assert(self@.hands =~= old(self)@.hands.update(i as int, cards@));
            },
        }
    }

    /// The pile of the given name, to be changed in place.
    pub fn field_mut(&mut self, id: &FieldKey) -> (r: Result<&mut Deck, GameError>)
        requires
            old(self).wf(),
        ensures
            match r {
                Ok(d) => old(self)@.field(id@) == Ok::<Seq<Card>, GameError>(d@) && final(self)@
                    =~~= old(self)@.with_field(id@, final(d)@),
                Err(e) => old(self)@.field(id@) == Err::<Seq<Card>, GameError>(e) && final(self)@
                    == old(self)@,
            },
    {
        match id {
            FieldKey::Trushes => Ok(&mut self.trushes),
            FieldKey::Excluded => Ok(&mut self.excluded),
            FieldKey::Hands(player_id) => match self.seat_of(player_id.as_str()) {
                Some(i) => {
                    assert(self@.hands.len() == self@.players.len());
                    Ok(&mut self.hands[i])
                },
                None => Err(GameError::FieldNotFound),
            },
        }
    }

    /// Moves the cards from one pile to the end of another, or changes
    /// nothing where a pile is missing or the first lacks one of the cards.
    pub fn transfer(&mut self, from: &FieldKey, to: &FieldKey, cards: Vec<Card>) -> (r: Result<
        (),
        GameError,
    >)
        requires
            old(self).wf(),
        ensures
            final(self).wf(),
            match old(self)@.transfer(from@, to@, cards@) {
                Ok(g) => r is Ok && final(self)@ == g,
                Err(e) => r == Err::<(), GameError>(e) && final(self)@ == old(self)@,
            },
    {
        let source = match self.locate(from) {
            Ok(slot) => slot,
            Err(e) => {
                return Err(e);
            },
        };
        let mut rest = self.read_pile(source);
        match remove_items(&mut rest, cards.as_slice()) {
            Ok(()) => {},
            Err(e) => {
                return Err(e);
            },
        }
        let target = match self.locate(to) {
            Ok(slot) => slot,
            Err(e) => {
                return Err(e);
            },
        };
        let ghost before = self@;
        let ghost taken = before.with_field(from@, rest@);
        self.write_pile(source, rest);
        assert(self@ == taken);
        assert(taken.players == before.players);
        assert(forall|id: Seq<char>| taken.seat_of(id) == before.seat_of(id));
        let mut pile = self.read_pile(target);
        assert(taken.field(to@) == Ok::<Seq<Card>, GameError>(pile@));
        let mut moving = cards;
        pile.append(&mut moving);
        self.write_pile(target, pile);
        Ok(())
    }

    /// The seat that is `a + b` steps on from `seat`, or back where `back`.
    fn step_seat(&self, seat: usize, back: bool, a: usize, b: usize) -> (r: usize)
        requires
            self.wf(),
            seat < self.hands@.len(),
            active_in(self@.hands).len() > 0,
        ensures
            r as int == self@.relative_seat(
                seat as int,
                if back {
                    -(a + b)
                } else {
                    a + b
                },
            ),
            r < self.hands@.len(),
    {
        let seats = self.active_seats();
        let n: usize = seats.len();
        let mut place: usize = 0;
        let mut i: usize = 0;
        while i < seat
            invariant
                i <= seat,
                seat < self.hands@.len(),
                place == active_in(self@.hands.take(i as int)).len(),
                place <= i,
            decreases seat - i,
        {
            proof {
                let now = self@.hands.take(i + 1);
                assert(now.drop_last() =~= self@.hands.take(i as int));
                assert(now.last() == self@.hands[i as int]);
            }
            if self.hands[i].0.len() > 0 {
                place += 1;
            }
            i += 1;
        }
        proof {
            lemma_active_prefix(self@.hands, seat as int);
            lemma_active_in(self@.hands);
            vstd::arithmetic::div_mod::lemma_mod_bound(place as int, n as int);
            vstd::arithmetic::div_mod::lemma_mod_twice(place as int, n as int);
            lemma_wrap(0, n as int);
        }
        let here: bool = self.hands[seat].0.len() > 0;
        let start: usize = place % n;
        let at: usize = if back {
            proof {
                lemma_fold_steps(place as int, a as int, b as int, n as int);
            }
            wrap_sub(wrap_sub(start, a % n, n), b % n, n)
        } else if here || (a == 0 && b == 0) {
            proof {
                lemma_fold_steps(place as int, a as int, b as int, n as int);
            }
            wrap_add(wrap_add(start, a % n, n), b % n, n)
        } else if b >= 1 {
            proof {
                lemma_fold_steps(place as int, a as int, b - 1, n as int);
            }
            wrap_add(wrap_add(start, a % n, n), (b - 1) % n, n)
        } else {
            proof {
                lemma_fold_steps(place as int, a - 1, 0, n as int);
            }
            wrap_add(wrap_add(start, (a - 1) % n, n), 0, n)
        };
        assert(0 <= active_in(self@.hands)[at as int] < self@.hands.len());
        seats[at]
    }

    /// The player who is `d` steps round the table from the given one,
    /// counting the players who hold cards only.
    pub fn get_relative_player(&self, player_id: &str, d: i32) -> (r: Result<String, GameError>)
        requires
            self.wf(),
        ensures
            match r {
                Ok(next) => self@.relative_player(player_id@, d as int) == Ok::<
                    Seq<char>,
                    GameError,
                >(next@),
                Err(e) => self@.relative_player(player_id@, d as int) == Err::<
                    Seq<char>,
                    GameError,
                >(e),
            },
    {
        let seat = match self.seat_of(player_id) {
            Some(seat) => seat,
            None => {
                return Err(GameError::FieldNotFound);
            },
        };
        let seats = self.active_seats();
        if seats.len() == 0 {
            return Err(GameError::MatchEnded);
        }
        let wide: i64 = d as i64;
        let at = if wide < 0 {
            self.step_seat(seat, true, (-wide) as usize, 0)
        } else {
            self.step_seat(seat, false, wide as usize, 0)
        };
        Ok(self.players[at].clone())
    }

    /// The rank of the play on top of the river where that rank's rule is in
    /// force.
    pub fn top_rule(&self) -> (r: Option<u8>)
        ensures
            r == self@.top_rule(),
    {
        broadcast use vstd::std_specs::hash::group_hash_axioms;

        if self.river.len() == 0 {
            return None;
        }
        let top = &self.river[self.river.len() - 1];
        let n = number(top.as_slice());
        if self.effect.effect_limits.contains(&n) {
            None
        } else {
            Some(n)
        }
    }

    fn flush_into(&mut self, to: Slot)
        requires
            !(to is Hand),
        ensures
            final(self)@ == (GameView {
                river: Seq::empty(),
                effect: old(self)@.effect.next_chain(),
                ..old(self)@.with_pile(to, old(self)@.pile(to) + old(self)@.river_cards())
            }),
    {
        let mut pile = self.read_pile(to);
        let mut i: usize = 0;
        while i < self.river.len()
            invariant
                i <= self.river.len(),
                *self == *old(self),
                pile@ == old(self)@.pile(to) + spilled(old(self)@.river.take(i as int)),
            decreases self.river.len() - i,
        {
            let play = copy_cards(self.river[i].as_slice());
            proof {
                let now = self@.river.take(i + 1);
                assert(now.drop_last() =~= self@.river.take(i as int));
                assert(now.last() == play@);
                assert(pile@ + play@ =~= self@.pile(to) + spilled(now));
            }
            let mut moving = play;
            pile.append(&mut moving);
            i += 1;
        }
        assert(self@.river.take(self@.river.len() as int) =~= self@.river);
        self.write_pile(to, pile);
        self.river = Vec::new();
        let lasting = self.effect.revoluted;
        let mut effect = Effect::new();
        effect.revoluted = lasting;
        self.effect = effect;
        assert(self@.river =~= Seq::<Seq<Card>>::empty());
    }

    /// Closes the chain into the pile of the given name.
    pub fn flush_river(&mut self, to: &FieldKey) -> (r: Result<(), GameError>)
        requires
            old(self).wf(),
        ensures
            final(self).wf(),
            match old(self)@.flush_river(to@) {
                Ok(g) => r is Ok && final(self)@ == g,
                Err(e) => r == Err::<(), GameError>(e) && final(self)@ == old(self)@,
            },
    {
        let target = match self.locate(to) {
            Ok(slot) => slot,
            Err(e) => {
                return Err(e);
            },
        };
        match target {
            Slot::Hand(i) => {
                let mut pile = self.read_pile(target);
                let mut cards = self.river_cards();
                pile.append(&mut cards);
                self.write_pile(target, pile);
                self.river = Vec::new();
                let lasting = self.effect.revoluted;
                let mut effect = Effect::new();
                effect.revoluted = lasting;
                self.effect = effect;
                assert(self@.river =~= Seq::<Seq<Card>>::empty());
            },
            _ => {
                self.flush_into(target);
            },
        }
        Ok(())
    }

    /// The cards of the plays on the river, the earliest play first.
    pub fn river_cards(&self) -> (r: Vec<Card>)
        ensures
            r@ == self@.river_cards(),
    {
        let mut r: Vec<Card> = Vec::new();
        let mut i: usize = 0;
        while i < self.river.len()
            invariant
                i <= self.river.len(),
                r@ == spilled(self@.river.take(i as int)),
            decreases self.river.len() - i,
        {
            let play = copy_cards(self.river[i].as_slice());
            proof {
                let now = self@.river.take(i + 1);
                assert(now.drop_last() =~= self@.river.take(i as int));
                assert(now.last() == play@);
            }
            let mut moving = play;
            r.append(&mut moving);
            i += 1;
        }
        assert(self@.river.take(self@.river.len() as int) =~= self@.river);
        r
    }

    /// Ends the turn of the current player.
    pub fn on_end_turn(&mut self) -> (r: Result<(), GameError>)
        requires
            old(self).wf(),
        ensures
            final(self).wf(),
            match old(self)@.end_turn() {
                Ok(g) => r is Ok && final(self)@ == g,
                Err(e) => r == Err::<(), GameError>(e) && final(self)@ == old(self)@,
            },
    {
        let player_id: String = match &self.current {
            Some(id) => id.clone(),
            None => {
                return Err(GameError::FieldNotFound);
            },
        };
        let seat = match self.seat_of(player_id.as_str()) {
            Some(seat) => seat,
            None => {
                return Err(GameError::FieldNotFound);
            },
        };
        let seats = self.active_seats();
        if self.hands[seat].0.len() == 0 && seats.len() <= 1 {
            return Err(GameError::MatchEnded);
        }
        proof {
            lemma_active_in(self@.hands);
            if self@.hands[seat as int].len() > 0 {
                assert(active_in(self@.hands).contains(seat as int));
            }
        }
        let rule = self.top_rule();
        let at = match rule {
            Some(5) => {
                let size: usize = self.river[self.river.len() - 1].len();
                self.step_seat(seat, false, size, 1)
            },
            Some(8) => self.step_seat(seat, false, 0, 0),
            Some(1) => self.step_seat(seat, false, 0, 0),
            _ => self.step_seat(seat, false, 1, 0),
        };
        let next: String = self.players[at].clone();
        let close: bool = match &self.last_served_player_id {
            Some(last) => *last == next,
            None => false,
        };
        let to = match rule {
            Some(2) => Slot::Excluded,
            _ => Slot::Trushes,
        };
        self.current = Some(next);
        if close {
            self.flush_into(to);
        }
        Ok(())
    }

    /// Whether the player has answered the question in force.
    pub fn has_answered(&self, player_id: &str) -> (r: bool)
        requires
            self.wf(),
        ensures
            r == self@.has_answered(player_id@),
    {
        match self.seat_of(player_id) {
            Some(i) => {
                assert(self@.answers.len() == self@.players.len());
                match &self.answers[i] {
                    Some(_) => true,
                    None => false,
                }
            },
            None => false,
        }
    }

    /// Whether the question in force waits for the player's answer.
    pub fn pending_for(&self, player_id: &str) -> (r: bool)
        requires
            self.wf(),
        ensures
            r == self@.pending_for(player_id@),
    {
        if self.prompt.len() == 0 {
            return false;
        }
        holds_text(&self.prompt[0].player_ids, player_id) && !self.has_answered(player_id)
    }

    /// Whether it is the player's turn.
    pub fn is_current(&self, player_id: &str) -> (r: bool)
        ensures
            r == (self@.current == Some(player_id@)),
    {
        match &self.current {
            Some(id) => {
                let key: String = player_id.to_owned();
                *id == key
            },
            None => false,
        }
    }

    /// Moves the cards from one pile to another and sorts that pile by
    /// strength, or changes nothing where a pile is missing or the first
    /// lacks one of the cards.
    pub fn take_cards(&mut self, from: &FieldKey, to: &FieldKey, cards: Vec<Card>) -> (r: Result<
        (),
        GameError,
    >)
        requires
            old(self).wf(),
        ensures
            final(self).wf(),
            match old(self)@.take_cards(from@, to@, cards@) {
                Ok(g) => r is Ok && final(self)@ == g,
                Err(e) => r == Err::<(), GameError>(e) && final(self)@ == old(self)@,
            },
    {
        match self.transfer(from, to, cards) {
            Ok(()) => {},
            Err(e) => {
                return Err(e);
            },
        }
        match self.locate(to) {
            Ok(slot) => {
                let mut pile = Deck(self.read_pile(slot));
                pile.arrange();
                self.write_pile(slot, pile.0);
            },
            Err(_) => {},
        }
        Ok(())
    }

    /// The seats whose hands hold cards, in seating order.
    pub fn active_seats(&self) -> (r: Vec<usize>)
        ensures
            r@.len() == active_in(self@.hands).len(),
            forall|k: int| 0 <= k < r@.len() ==> r@[k] as int == active_in(self@.hands)[k],
    {
        let mut r: Vec<usize> = Vec::new();
        let mut i: usize = 0;
        while i < self.hands.len()
            invariant
                i <= self.hands.len(),
                r@.len() == active_in(self@.hands.take(i as int)).len(),
                forall|k: int|
                    0 <= k < r@.len() ==> r@[k] as int == active_in(self@.hands.take(i as int))[k],
            decreases self.hands.len() - i,
        {
            proof {
                let now = self@.hands.take(i + 1);
                assert(now.drop_last() =~= self@.hands.take(i as int));
                assert(now.last() == self@.hands[i as int]);
            }
            if self.hands[i].0.len() > 0 {
                r.push(i);
            }
            i += 1;
        }
        assert(self@.hands.take(self@.hands.len() as int) =~= self@.hands);
        r
    }

    /// The players who hold cards, in seating order.
    pub fn active_player_ids(&self) -> (r: Vec<String>)
        requires
            self.wf(),
        ensures
            texts(r@) == self@.active_player_ids(),
    {
        let seats = self.active_seats();
        let mut r: Vec<String> = Vec::new();
        let mut k: usize = 0;
        proof {
            lemma_active_in(self@.hands);
        }
        while k < seats.len()
            invariant
                self.wf(),
                k <= seats.len(),
                seats@.len() == active_in(self@.hands).len(),
                forall|j: int|
                    0 <= j < seats@.len() ==> seats@[j] as int == active_in(self@.hands)[j],
                forall|j: int|
                    0 <= j < active_in(self@.hands).len() ==> 0 <= #[trigger] active_in(
                        self@.hands,
                    )[j] < self@.hands.len(),
                r@.len() == k,
                forall|j: int| 0 <= j < k ==> r@[j]@ == self@.players[seats@[j] as int],
            decreases seats.len() - k,
        {
            assert(0 <= active_in(self@.hands)[k as int] < self@.hands.len());
            r.push(self.players[seats[k]].clone());
            k += 1;
        }
        assert(texts(r@) =~= self@.active_player_ids());
        r
    }
}

} // verus!
