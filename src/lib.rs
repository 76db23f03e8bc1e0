//! Decision logic for a rock-paper-scissors style card game: which card the
//! AI side should play next against the human side's deck.
pub mod beat_solver;
pub mod beat_solver_cards;
pub mod game_types;
pub mod solver;
pub mod util;
