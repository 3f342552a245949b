//! A single-deck Tarot patience core: canonical board state, frontier
//! derivation, the forced-move automaton, column-layout conversions and a
//! compact text codec, with machine-checked contracts throughout.

pub mod card;
pub mod forced;
pub mod layout;
pub mod state;
pub mod text;
