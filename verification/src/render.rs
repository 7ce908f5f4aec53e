//! The text drawing of a grid, with found words coloured by direction.

use vstd::prelude::*;

use crate::paint::color_of;
use crate::solver::CrosswordWordData;

verus! {

/// Terminal colour of words running Up.
pub const RED: &'static str = "\x1B[38:5:196m";

/// Terminal colour of words running UpRight.
pub const ORANGE: &'static str = "\x1B[38:5:202m";

/// Terminal colour of words running Right.
pub const YELLOW: &'static str = "\x1B[38:5:226m";

/// Terminal colour of words running DownRight.
pub const GREEN: &'static str = "\x1B[38:5:76m";

/// Terminal colour of words running Down.
pub const BLUE: &'static str = "\x1B[38:5:39m";

/// Terminal colour of words running DownLeft.
pub const PURPLE: &'static str = "\x1B[38:5:63m";

/// Terminal colour of words running Left.
pub const PINK: &'static str = "\x1B[38:5:201m";

/// Terminal colour of words running UpLeft.
pub const WHITE: &'static str = "\x1B[38:5:231m";

/// The colour that follows a coloured letter.
pub const RESET: &'static str = "\x1B[38:5:244m";

/// The escape sequence that starts a letter of colour `key`.
pub open spec fn color_code(key: i32) -> Seq<char> {
    if key == 1 {
        RED@
    } else if key == 2 {
        ORANGE@
    } else if key == 3 {
        YELLOW@
    } else if key == 4 {
        GREEN@
    } else if key == 5 {
        BLUE@
    } else if key == 6 {
        PURPLE@
    } else if key == 7 {
        PINK@
    } else {
        WHITE@
    }
}

/// One cell as printed: the letter, coloured if it has a colour, and a space.
pub open spec fn render_cell(c: char, color: Option<i32>) -> Seq<char> {
    match color {
        Some(key) => color_code(key) + seq![c] + RESET@ + " "@,
        None => seq![c] + " "@,
    }
}

/// The first `count` cells of `row`, as printed, `y` being the row's place counted from
/// the bottom, in which found words are given.
pub open spec fn render_cells(
    row: Seq<char>,
    y: int,
    cache: Seq<(Seq<char>, Option<CrosswordWordData>)>,
    count: int,
) -> Seq<char>
    decreases count,
{
    if count <= 0 {
        Seq::empty()
    } else {
        render_cells(row, y, cache, count - 1) + render_cell(row[count - 1], color_of(cache, count - 1, y))
    }
}

/// Row `y` of `grid` (rows counted from the top) as printed: a tab, its cells, and a
/// line break.
pub open spec fn render_line(
    grid: Seq<Seq<char>>,
    cache: Seq<(Seq<char>, Option<CrosswordWordData>)>,
    y: int,
) -> Seq<char> {
    "\t"@ + render_cells(grid[y], grid.len() - 1 - y, cache, grid[y].len() as int) + "\n"@
}

/// The rows of `grid` (counted from the top) from the last one back to row `y`, as
/// printed: the row with the greatest index comes first.
pub open spec fn render_from(
    grid: Seq<Seq<char>>,
    cache: Seq<(Seq<char>, Option<CrosswordWordData>)>,
    y: int,
) -> Seq<char>
    decreases grid.len() - y,
{
    if y < 0 || y >= grid.len() {
        Seq::empty()
    } else {
        render_from(grid, cache, y + 1) + render_line(grid, cache, y)
    }
}

/// The whole grid as printed, its last row first, with the words that `cache` holds as
/// found coloured.
pub open spec fn render(grid: Seq<Seq<char>>, cache: Seq<(Seq<char>, Option<CrosswordWordData>)>) -> Seq<char> {
    render_from(grid, cache, 0)
}

} // verus!
