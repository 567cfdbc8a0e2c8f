//! The four grid directions and their opposites.

use vstd::prelude::*;

verus! {

/// A 4-connected neighbour direction on the grid.
#[derive(Clone, Copy, Debug, PartialEq, Eq, Structural)]
pub enum Direction {
    Up,
    Down,
    Left,
    Right,
}

/// The direction that points back: Up and Down swap, Left and Right swap.
pub open spec fn opposite_spec(d: Direction) -> Direction {
    match d {
        Direction::Up => Direction::Down,
        Direction::Down => Direction::Up,
        Direction::Left => Direction::Right,
        Direction::Right => Direction::Left,
    }
}

/// Taking the opposite twice comes back to the start.
pub proof fn lemma_opposite_involutive(d: Direction)
    ensures
        opposite_spec(opposite_spec(d)) == d,
{
}

#[verifier::when_used_as_spec(opposite_spec)]
pub fn opposite(d: Direction) -> (r: Direction)
    ensures
        r == opposite_spec(d),
{
    match d {
        Direction::Up => Direction::Down,
        Direction::Down => Direction::Up,
        Direction::Left => Direction::Right,
        Direction::Right => Direction::Left,
    }
}

} // verus!
