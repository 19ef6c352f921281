//! Rule engine of a sliding-tile merge puzzle on a 4×4 grid: directional
//! moves with single merges per tile, detection of the terminal state, and
//! the placement of new tiles.
pub mod grid;
pub mod mover;
pub mod spawn;
