//! Core of a Klondike-family solitaire game: the card codec, the deal
//! generator, the table state with its invariants, and the move engine.
//! Terminal rendering and input handling live outside this crate.

pub mod card;
pub mod counting;
pub mod engine;
pub mod laws;
pub mod solitare_state;
