//! A two-player game of Go Fish: a deck of cards, two hands, and the rules
//! of a turn, with the score bound proved over every reachable state.
pub mod card;
mod chance;
pub mod deck;
pub mod game;
pub mod player;
