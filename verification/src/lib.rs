//! A hexagonal territory grid for a turn-based strategy game.
//!
//! The board is a disc of hexagonal tiles, each owned by a team. From a
//! snapshot of the board the crate derives the outlines that separate one
//! team's territory from everything else, and the highlight and overlay
//! state that shows where a selected unit can act.

pub mod board;
pub mod border;
pub mod border_laws;
pub mod coordinate;
pub mod geometry;
pub mod highlight;
pub mod palette;
pub mod ring;
