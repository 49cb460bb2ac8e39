pub mod board;
pub mod engine;
pub mod laws;
pub mod line;

use vstd::prelude::*;

verus! {

/// A move direction for the sliding-tile engine.
#[derive(Clone, Copy, PartialEq, Eq, Structural)]
pub enum Direction {
    Left,
    Right,
    Up,
    Down,
}

} // verus!
