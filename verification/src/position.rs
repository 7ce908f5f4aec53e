//! Cell coordinates and moving from one cell along a direction.

use vstd::prelude::*;

use crate::direction::{dir_dx, dir_dy, WordDirection};

verus! {

/// A cell coordinate: `x` is the column, counted from the left, and `y` the row,
/// counted from the bottom.
#[derive(Debug, PartialEq, Eq, Clone, Copy)]
pub struct CrosswordPosition {
    pub x: isize,
    pub y: isize,
}

/// The column reached after `amount` steps from column `x` in direction `d`.
pub open spec fn step_x(x: int, d: WordDirection, amount: int) -> int {
    match d {
        WordDirection::Up | WordDirection::Down => x,
        WordDirection::UpRight | WordDirection::Right | WordDirection::DownRight => x + amount,
        WordDirection::DownLeft | WordDirection::Left | WordDirection::UpLeft => x - amount,
    }
}

/// The row reached after `amount` steps from row `y` in direction `d`.
pub open spec fn step_y(y: int, d: WordDirection, amount: int) -> int {
    match d {
        WordDirection::Right | WordDirection::Left => y,
        WordDirection::Up | WordDirection::UpRight | WordDirection::UpLeft => y + amount,
        WordDirection::DownRight | WordDirection::Down | WordDirection::DownLeft => y - amount,
    }
}

/// Moving `amount` steps in direction `d` adds `amount` times the direction's
/// relative step `(dir_dx(d), dir_dy(d))`, the pair that `get_relative_x_y` returns.
pub proof fn lemma_step_is_scaled_relative_step(x: int, y: int, d: WordDirection, amount: int)
    ensures
        step_x(x, d, amount) == x + dir_dx(d) * amount,
        step_y(y, d, amount) == y + dir_dy(d) * amount,
{
}

impl CrosswordPosition {
    /// The position `amount` cells away from `self` in `direction`, that is `self` plus
    /// `amount` times the step that `direction.get_relative_x_y()` returns. As in the
    /// arithmetic it stands for, `amount` is taken as an `isize`.
    pub fn get_position_from_direction(self, direction: &WordDirection, amount: usize) -> (p: Self)
        requires
            isize::MIN <= step_x(self.x as int, *direction, (amount as isize) as int) <= isize::MAX,
            isize::MIN <= step_y(self.y as int, *direction, (amount as isize) as int) <= isize::MAX,
        ensures
            p.x == step_x(self.x as int, *direction, (amount as isize) as int),
            p.y == step_y(self.y as int, *direction, (amount as isize) as int),
    {
        let a = amount as isize;
        match direction {
            WordDirection::Up => CrosswordPosition { x: self.x, y: self.y + a },
            WordDirection::UpRight => CrosswordPosition { x: self.x + a, y: self.y + a },
            WordDirection::Right => CrosswordPosition { x: self.x + a, y: self.y },
            WordDirection::DownRight => CrosswordPosition { x: self.x + a, y: self.y - a },
            WordDirection::Down => CrosswordPosition { x: self.x, y: self.y - a },
            WordDirection::DownLeft => CrosswordPosition { x: self.x - a, y: self.y - a },
            WordDirection::Left => CrosswordPosition { x: self.x - a, y: self.y },
            WordDirection::UpLeft => CrosswordPosition { x: self.x - a, y: self.y + a },
        }
    }
}

impl core::ops::Add for CrosswordPosition {
    type Output = Self;

    fn add(self, rhs: Self) -> (r: Self::Output) {
        Self { x: self.x + rhs.x, y: self.y + rhs.y }
    }
}

impl vstd::std_specs::ops::AddSpecImpl for CrosswordPosition {
    open spec fn obeys_add_spec() -> bool {
        true
    }

    open spec fn add_req(self, rhs: Self) -> bool {
        &&& isize::MIN <= self.x + rhs.x <= isize::MAX
        &&& isize::MIN <= self.y + rhs.y <= isize::MAX
    }

    open spec fn add_spec(self, rhs: Self) -> Self {
        CrosswordPosition { x: (self.x + rhs.x) as isize, y: (self.y + rhs.y) as isize }
    }
}

} // verus!
