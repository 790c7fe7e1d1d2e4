//! Parse a textual grid description into any caller-supplied representation
//! of a cellular-automaton state.
//!
//! The text is split into lines; a `.` or a space marks a dead cell, any
//! other character a live cell. The resulting state has one row per line and
//! as many columns as the longest line; short lines are padded with dead
//! cells.

pub mod builder;
pub mod grid;
pub mod state;

pub use builder::BuildGol;
pub use builder::GoLBuilder;
pub use state::GoL;
