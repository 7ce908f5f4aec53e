//! The eight directions a word can run in, their steps and their search order.

use vstd::prelude::*;

verus! {

/// One of the eight directions in which a word can run through the grid.
///
/// "Up" means growing row index (`y + 1`); "Right" means growing column index (`x + 1`).
#[derive(Debug, PartialEq, Eq, Copy, Clone)]
pub enum WordDirection {
    Up,
    UpRight,
    Right,
    DownRight,
    Down,
    DownLeft,
    Left,
    UpLeft,
}

/// The column step of a direction.
pub open spec fn dir_dx(d: WordDirection) -> int {
    match d {
        WordDirection::Up => 0,
        WordDirection::UpRight => 1,
        WordDirection::Right => 1,
        WordDirection::DownRight => 1,
        WordDirection::Down => 0,
        WordDirection::DownLeft => -1,
        WordDirection::Left => -1,
        WordDirection::UpLeft => -1,
    }
}

/// The row step of a direction.
pub open spec fn dir_dy(d: WordDirection) -> int {
    match d {
        WordDirection::Up => 1,
        WordDirection::UpRight => 1,
        WordDirection::Right => 0,
        WordDirection::DownRight => -1,
        WordDirection::Down => -1,
        WordDirection::DownLeft => -1,
        WordDirection::Left => 0,
        WordDirection::UpLeft => 1,
    }
}

/// The rank of a direction in the order in which directions are tried.
pub open spec fn dir_index(d: WordDirection) -> int {
    match d {
        WordDirection::Up => 0,
        WordDirection::UpRight => 1,
        WordDirection::Right => 2,
        WordDirection::DownRight => 3,
        WordDirection::Down => 4,
        WordDirection::DownLeft => 5,
        WordDirection::Left => 6,
        WordDirection::UpLeft => 7,
    }
}

/// The number of directions.
pub const DIRECTION_COUNT: usize = 8;

impl WordDirection {
    /// The step `(dx, dy)` that one letter of a word in this direction moves by.
    pub fn get_relative_x_y(self) -> (r: (i8, i8))
        ensures
            r.0 == dir_dx(self),
            r.1 == dir_dy(self),
    {
        match self {
            WordDirection::Up => (0, 1),
            WordDirection::UpRight => (1, 1),
            WordDirection::Right => (1, 0),
            WordDirection::DownRight => (1, -1),
            WordDirection::Down => (0, -1),
            WordDirection::DownLeft => (-1, -1),
            WordDirection::Left => (-1, 0),
            WordDirection::UpLeft => (-1, 1),
        }
    }

    /// The direction of rank `index` in the search order
    /// (Up, UpRight, Right, DownRight, Down, DownLeft, Left, UpLeft).
    pub fn from_index(index: usize) -> (d: WordDirection)
        requires
            index < DIRECTION_COUNT,
        ensures
            dir_index(d) == index,
    {
        match index {
            0 => WordDirection::Up,
            1 => WordDirection::UpRight,
            2 => WordDirection::Right,
            3 => WordDirection::DownRight,
            4 => WordDirection::Down,
            5 => WordDirection::DownLeft,
            6 => WordDirection::Left,
            _ => WordDirection::UpLeft,
        }
    }
}

/// Every direction is one step to a neighbouring cell: no coordinate moves by more
/// than one, and at least one moves.
pub proof fn lemma_direction_is_unit_step(d: WordDirection)
    ensures
        -1 <= dir_dx(d) <= 1,
        -1 <= dir_dy(d) <= 1,
        dir_dx(d) != 0 || dir_dy(d) != 0,
        0 <= dir_index(d) < DIRECTION_COUNT,
{
}

/// Two directions with the same rank are the same direction.
pub proof fn lemma_dir_index_injective(d1: WordDirection, d2: WordDirection)
    ensures
        dir_index(d1) == dir_index(d2) <==> d1 == d2,
{
}

} // verus!
