//! Rectangular perfect mazes: a grid of cells joined by doors, a randomized
//! depth-first carver, and a text renderer with swappable glyph sets.
//!
//! - [`direction`]: the four moves, their door bits and their steps.
//! - [`maze`]: the maze, its cells and coordinates, and the operations on
//!   doors and marks.
//! - [`maker`]: the generator.
//! - [`printer`]: the renderer and its two glyph sets.
//!
//! The contracts speak of a maze through its model, a [`grid::Grid`]. What
//! they say of passages is defined in [`tally`] (counting) and [`paths`]
//! (walks, cycles, perfect mazes); [`carve`] holds the invariant of the
//! generator's walk.

pub mod direction;
pub mod grid;
pub mod maze;
pub mod tally;
pub mod paths;
pub mod carve;
pub mod maker;
pub mod printer;
