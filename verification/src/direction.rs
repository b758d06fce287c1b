//! The four cardinal moves on the grid, with the door bit and the unit step
//! that belong to each.

use vstd::prelude::*;

verus! {

/// One of the four cardinal moves, or no move at all.
#[derive(Clone, Copy, Debug, PartialEq, Eq, Structural)]
pub enum Direction {
    Nowhere,
    Up,
    Right,
    Down,
    Left,
}

/// The four real moves, in the order in which a walk tries them before shuffling.
pub const ALL_DIRECTIONS: [Direction; 4] = [
    Direction::Up,
    Direction::Right,
    Direction::Down,
    Direction::Left,
];

/// The four real moves as a sequence, in the same order.
pub open spec fn four_directions() -> Seq<Direction> {
    ALL_DIRECTIONS@
}

impl Direction {
    /// The bit that stands for a door in this direction; `Nowhere` has none.
    pub open spec fn mask(self) -> u32 {
        match self {
            Direction::Nowhere => 0,
            Direction::Up => 1,
            Direction::Down => 2,
            Direction::Left => 4,
            Direction::Right => 8,
        }
    }

    /// The unit step `(rows, columns)` that this move makes.
    pub open spec fn delta(self) -> (int, int) {
        match self {
            Direction::Nowhere => (0, 0),
            Direction::Up => (-1, 0),
            Direction::Down => (1, 0),
            Direction::Left => (0, -1),
            Direction::Right => (0, 1),
        }
    }

    /// The move that undoes this one.
    pub open spec fn opposite(self) -> Direction {
        match self {
            Direction::Nowhere => Direction::Nowhere,
            Direction::Up => Direction::Down,
            Direction::Down => Direction::Up,
            Direction::Left => Direction::Right,
            Direction::Right => Direction::Left,
        }
    }

    /// The door bit of this direction: 1 for up, 2 for down, 4 for left, 8
    /// for right, and 0 for no move.
    pub fn to_door_mask(&self) -> (mask: u32)
        ensures
            mask == self.mask(),
    {
        match self {
            Direction::Nowhere => 0,
            Direction::Up => 1,
            Direction::Down => 2,
            Direction::Left => 4,
            Direction::Right => 8,
        }
    }

    /// The change in row and column that one step in this direction makes.
    pub fn to_delta(&self) -> (delta: (i32, i32))
        ensures
            delta.0 == self.delta().0,
            delta.1 == self.delta().1,
    {
        match self {
            Direction::Nowhere => (0, 0),
            Direction::Up => (-1, 0),
            Direction::Down => (1, 0),
            Direction::Left => (0, -1),
            Direction::Right => (0, 1),
        }
    }

    /// The direction that leads back.
    pub fn to_opposite(&self) -> (back: &Self)
        ensures
            *back == self.opposite(),
    {
        match self {
            Direction::Nowhere => &Direction::Nowhere,
            Direction::Up => &Direction::Down,
            Direction::Down => &Direction::Up,
            Direction::Left => &Direction::Right,
            Direction::Right => &Direction::Left,
        }
    }
}

/// Going back undoes going forth: the opposite of the opposite is the move
/// itself, and the two steps cancel.
pub proof fn lemma_opposite_undoes(d: Direction)
    ensures
        d.opposite().opposite() == d,
        d.opposite().delta().0 == -d.delta().0,
        d.opposite().delta().1 == -d.delta().1,
        (d == Direction::Nowhere) == (d.opposite() == Direction::Nowhere),
{
}

/// A real move owns exactly one of the four door bits, and never the bit of
/// its opposite; two different moves never share a bit.
pub proof fn lemma_door_bits(d: Direction, e: Direction)
    ensures
        d != Direction::Nowhere ==> (d.mask() == 1 || d.mask() == 2 || d.mask() == 4 || d.mask()
            == 8),
        d != Direction::Nowhere ==> d.mask() != d.opposite().mask(),
        d != e ==> d.mask() & e.mask() == 0,
        d.mask() < 16,
{
    let a = d.mask();
    let b = e.mask();
    assert((a == 0 || a == 1 || a == 2 || a == 4 || a == 8) && (b == 0 || b == 1 || b == 2 || b
        == 4 || b == 8) && a != b ==> a & b == 0) by (bit_vector);
}

} // verus!
