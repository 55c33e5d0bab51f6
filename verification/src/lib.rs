//! Rules engine of the Career Poker card game.
//!
//! `card` and `deck` hold the cards and the piles; `effect` the rules that
//! the plays of a chain put in force; `game` the state of a match and its
//! turn order; `events` the operations of the players, which alone change a
//! match; `game_view` what one player sees of it. `state` keeps a match the
//! way a room does, with its piles under their names in a `text_map`, and
//! `mock` stands in for the host of a room. `laws` and `conservation` state
//! what holds of the rules whatever the cards.

pub mod card;
pub mod conservation;
pub mod deck;
pub mod effect;
pub mod error;
pub mod events;
pub mod game;
pub mod game_view;
pub mod laws;
pub mod mock;
pub mod state;
pub mod text_map;
