//! What it means for a word to occur in a grid of letters, and which occurrence
//! comes first in search order.

use vstd::prelude::*;

use crate::direction::{dir_index, WordDirection};
use crate::position::{step_x, step_y};

verus! {

/// Whether `(x, y)` (column, row) is a cell of the grid.
pub open spec fn in_grid(grid: Seq<Seq<char>>, x: int, y: int) -> bool {
    0 <= y < grid.len() && 0 <= x < grid[y].len()
}

/// The letter at column `x`, row `y`, if there is such a cell.
pub open spec fn letter_at(grid: Seq<Seq<char>>, x: int, y: int) -> Option<char> {
    if in_grid(grid, x, y) {
        Some(grid[y][x])
    } else {
        None
    }
}

/// `word` can be read in the grid starting at `(x, y)` and running in direction `d`.
pub open spec fn spells_at(grid: Seq<Seq<char>>, word: Seq<char>, x: int, y: int, d: WordDirection) -> bool {
    forall|i: int|
        0 <= i < word.len() ==> #[trigger] letter_at(grid, step_x(x, d, i), step_y(y, d, i)) == Some(
            word[i],
        )
}

/// Cell `(x1, y1)` comes before cell `(x2, y2)` in reading order: rows from the top one
/// (the greatest `y`) down, each row from left to right.
pub open spec fn cell_before(x1: int, y1: int, x2: int, y2: int) -> bool {
    y1 > y2 || (y1 == y2 && x1 < x2)
}

/// The candidate `(x1, y1, d1)` is tried before `(x2, y2, d2)`: cells in reading order,
/// and at one cell the directions in the order Up, UpRight, ..., UpLeft.
pub open spec fn tried_before(
    x1: int,
    y1: int,
    d1: WordDirection,
    x2: int,
    y2: int,
    d2: WordDirection,
) -> bool {
    cell_before(x1, y1, x2, y2) || (x1 == x2 && y1 == y2 && dir_index(d1) < dir_index(d2))
}

/// `word` occurs somewhere in the grid.
pub open spec fn occurs(grid: Seq<Seq<char>>, word: Seq<char>) -> bool {
    exists|x: int, y: int, d: WordDirection| in_grid(grid, x, y) && #[trigger] spells_at(grid, word, x, y, d)
}

/// `(x, y, d)` is an occurrence of `word`, and no candidate tried before it is one.
pub open spec fn is_first_occurrence(
    grid: Seq<Seq<char>>,
    word: Seq<char>,
    x: int,
    y: int,
    d: WordDirection,
) -> bool {
    &&& in_grid(grid, x, y)
    &&& spells_at(grid, word, x, y, d)
    &&& forall|x2: int, y2: int, d2: WordDirection|
        in_grid(grid, x2, y2) && tried_before(x2, y2, d2, x, y, d) ==> !#[trigger] spells_at(
            grid,
            word,
            x2,
            y2,
            d2,
        )
}

/// The first occurrence of `word` in search order, if it occurs at all.
pub open spec fn first_occurrence(grid: Seq<Seq<char>>, word: Seq<char>) -> Option<(int, int, WordDirection)> {
    if exists|x: int, y: int, d: WordDirection| is_first_occurrence(grid, word, x, y, d) {
        Some(choose|t: (int, int, WordDirection)| is_first_occurrence(grid, word, t.0, t.1, t.2))
    } else {
        None
    }
}

/// Search order is total: of two different candidates, one is tried before the other.
pub proof fn lemma_tried_before_total(
    x1: int,
    y1: int,
    d1: WordDirection,
    x2: int,
    y2: int,
    d2: WordDirection,
)
    requires
        (x1, y1, d1) != (x2, y2, d2),
    ensures
        tried_before(x1, y1, d1, x2, y2, d2) || tried_before(x2, y2, d2, x1, y1, d1),
{
    crate::direction::lemma_dir_index_injective(d1, d2);
}

/// A word has at most one first occurrence.
pub proof fn lemma_first_occurrence_unique(
    grid: Seq<Seq<char>>,
    word: Seq<char>,
    x1: int,
    y1: int,
    d1: WordDirection,
    x2: int,
    y2: int,
    d2: WordDirection,
)
    requires
        is_first_occurrence(grid, word, x1, y1, d1),
        is_first_occurrence(grid, word, x2, y2, d2),
    ensures
        x1 == x2 && y1 == y2 && d1 == d2,
{
    if (x1, y1, d1) != (x2, y2, d2) {
        lemma_tried_before_total(x1, y1, d1, x2, y2, d2);
    }
}

/// When `(x, y, d)` is the first occurrence, `first_occurrence` names it.
pub proof fn lemma_first_occurrence_is(
    grid: Seq<Seq<char>>,
    word: Seq<char>,
    x: int,
    y: int,
    d: WordDirection,
)
    requires
        is_first_occurrence(grid, word, x, y, d),
    ensures
        first_occurrence(grid, word) == Some((x, y, d)),
{
    let t = choose|t: (int, int, WordDirection)| is_first_occurrence(grid, word, t.0, t.1, t.2);
    assert(is_first_occurrence(grid, word, (x, y, d).0, (x, y, d).1, (x, y, d).2));
    lemma_first_occurrence_unique(grid, word, x, y, d, t.0, t.1, t.2);
}

/// A word that occurs nowhere has no first occurrence.
pub proof fn lemma_no_occurrence(grid: Seq<Seq<char>>, word: Seq<char>)
    requires
        !occurs(grid, word),
    ensures
        first_occurrence(grid, word) is None,
{
    if exists|x: int, y: int, d: WordDirection| is_first_occurrence(grid, word, x, y, d) {
        let (x, y, d) = choose|x: int, y: int, d: WordDirection| is_first_occurrence(grid, word, x, y, d);
        assert(in_grid(grid, x, y) && spells_at(grid, word, x, y, d));
    }
}

/// A predicate that holds of some natural number holds of a least one.
proof fn lemma_least_witness(p: spec_fn(int) -> bool, v: int) -> (m: int)
    requires
        v >= 0,
        p(v),
    ensures
        0 <= m <= v,
        p(m),
        forall|k: int| 0 <= k < m ==> !#[trigger] p(k),
    decreases v,
{
    if exists|k: int| 0 <= k < v && #[trigger] p(k) {
        let k = choose|k: int| 0 <= k < v && #[trigger] p(k);
        lemma_least_witness(p, k)
    } else {
        v
    }
}

/// A word that occurs somewhere has a first occurrence.
pub proof fn lemma_occurrence_has_first(grid: Seq<Seq<char>>, word: Seq<char>)
    requires
        occurs(grid, word),
    ensures
        exists|x: int, y: int, d: WordDirection| is_first_occurrence(grid, word, x, y, d),
        first_occurrence(grid, word) is Some,
{
    let (x, y, d) = choose|x: int, y: int, d: WordDirection|
        in_grid(grid, x, y) && #[trigger] spells_at(grid, word, x, y, d);
    let top = grid.len() - 1;
    let p_row = |r: int| exists|c: int, e: WordDirection| in_grid(grid, c, top - r) && #[trigger] spells_at(grid, word, c, top - r, e);
    assert(spells_at(grid, word, x, top - (top - y), d));
    assert(p_row(top - y));
    let r0 = lemma_least_witness(p_row, top - y);
    let y0 = top - r0;
    let (x1, d1) = choose|c: int, e: WordDirection| in_grid(grid, c, y0) && #[trigger] spells_at(grid, word, c, y0, e);
    let p_col = |c: int| exists|e: WordDirection| in_grid(grid, c, y0) && #[trigger] spells_at(grid, word, c, y0, e);
    assert(p_col(x1));
    let x0 = lemma_least_witness(p_col, x1);
    let d2 = choose|e: WordDirection| in_grid(grid, x0, y0) && #[trigger] spells_at(grid, word, x0, y0, e);
    let p_dir = |i: int| exists|e: WordDirection| dir_index(e) == i && #[trigger] spells_at(grid, word, x0, y0, e);
    crate::direction::lemma_direction_is_unit_step(d2);
    assert(p_dir(dir_index(d2)));
    let i0 = lemma_least_witness(p_dir, dir_index(d2));
    let d0 = choose|e: WordDirection| dir_index(e) == i0 && #[trigger] spells_at(grid, word, x0, y0, e);
    assert forall|x2: int, y2: int, e2: WordDirection|
        in_grid(grid, x2, y2) && tried_before(x2, y2, e2, x0, y0, d0) implies !#[trigger] spells_at(
            grid,
            word,
            x2,
            y2,
            e2,
        ) by {
        if spells_at(grid, word, x2, y2, e2) {
            if y2 > y0 {
                assert(spells_at(grid, word, x2, top - (top - y2), e2));
                assert(p_row(top - y2));
            } else if y2 == y0 && x2 < x0 {
                assert(p_col(x2));
            } else {
                crate::direction::lemma_direction_is_unit_step(e2);
                assert(p_dir(dir_index(e2)));
            }
        }
    }
    assert(is_first_occurrence(grid, word, x0, y0, d0));
}

} // verus!
