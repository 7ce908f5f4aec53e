//! The colours of cells on which found words run.

use vstd::prelude::*;

use crate::direction::dir_index;
use crate::position::{step_x, step_y};
use crate::solver::CrosswordWordData;
use crate::text::utf8_len;

verus! {

/// The colour number of a word running in the direction of `found`: 1 for Up, 2 for
/// UpRight, and so on up to 8 for UpLeft.
pub open spec fn direction_key(found: CrosswordWordData) -> i32 {
    (dir_index(found.direction) + 1) as i32
}

/// One of the first `count` cells from `found`'s position in its direction is `(x, y)`.
pub open spec fn covers_prefix(found: CrosswordWordData, count: int, x: int, y: int) -> bool {
    exists|n: int|
        0 <= n < count && x == #[trigger] step_x(found.position.x as int, found.direction, n) && y
            == step_y(found.position.y as int, found.direction, n)
}

/// The colour of cell `(x, y)` given the remembered answers: that of the found word that
/// covers it and comes last in the memory's order, a word covering as many cells as its
/// UTF-8 encoding has bytes.
pub open spec fn color_of(cache: Seq<(Seq<char>, Option<CrosswordWordData>)>, x: int, y: int) -> Option<i32>
    decreases cache.len(),
{
    if cache.len() == 0 {
        None
    } else {
        let e = cache.last();
        match e.1 {
            Some(found) => if covers_prefix(found, utf8_len(e.0), x, y) {
                Some(direction_key(found))
            } else {
                color_of(cache.drop_last(), x, y)
            },
            None => color_of(cache.drop_last(), x, y),
        }
    }
}

/// `table` has the grid's shape and holds each cell's colour.
pub open spec fn is_color_table(
    table: Seq<Seq<Option<i32>>>,
    grid: Seq<Seq<char>>,
    cache: Seq<(Seq<char>, Option<CrosswordWordData>)>,
) -> bool {
    &&& table.len() == grid.len()
    &&& forall|y: int| 0 <= y < grid.len() ==> (#[trigger] table[y]).len() == grid[y].len()
    &&& forall|x: int, y: int|
        0 <= y < grid.len() && 0 <= x < grid[y].len() ==> #[trigger] table[y][x] == color_of(cache, x, y)
}

/// The remembered answer `entry` is a found word whose `n`-th cell, counting from its
/// first letter in its direction and no further than its UTF-8 encoding has bytes, is
/// `(x, y)`.
pub open spec fn lays_cell(entry: (Seq<char>, Option<CrosswordWordData>), n: int, x: int, y: int) -> bool {
    &&& entry.1 is Some
    &&& 0 <= n < utf8_len(entry.0)
    &&& x == step_x(entry.1->0.position.x as int, entry.1->0.direction, n)
    &&& y == step_y(entry.1->0.position.y as int, entry.1->0.direction, n)
}

/// A cell is coloured exactly when a found word occupies it, a word occupying as many
/// cells as its UTF-8 encoding has bytes and no more; its colour is the direction key
/// (1 for Up up to 8 for UpLeft) of the last remembered word that occupies it.
pub proof fn lemma_colour_marks_found_words(cache: Seq<(Seq<char>, Option<CrosswordWordData>)>, x: int, y: int)
    ensures
        color_of(cache, x, y) is None <==> forall|i: int, n: int|
            0 <= i < cache.len() ==> !#[trigger] lays_cell(cache[i], n, x, y),
        color_of(cache, x, y) matches Some(k) ==> exists|i: int, n: int|
            {
                &&& 0 <= i < cache.len()
                &&& #[trigger] lays_cell(cache[i], n, x, y)
                &&& k == dir_index(cache[i].1->0.direction) + 1
                &&& forall|j: int, m: int| i < j < cache.len() ==> !#[trigger] lays_cell(cache[j], m, x, y)
            },
    decreases cache.len(),
{
    if cache.len() > 0 {
        let rest = cache.drop_last();
        let last = cache.len() - 1;
        lemma_colour_marks_found_words(rest, x, y);
        assert forall|i: int| 0 <= i < rest.len() implies rest[i] == cache[i] by {}
        let e = cache.last();
        let covered = match e.1 {
            Some(found) => covers_prefix(found, utf8_len(e.0), x, y),
            None => false,
        };
        if covered {
            let found = e.1->0;
            let n = choose|n: int|
                0 <= n < utf8_len(e.0) && x == #[trigger] step_x(found.position.x as int, found.direction, n)
                    && y == step_y(found.position.y as int, found.direction, n);
            assert(lays_cell(cache[last], n, x, y));
            crate::direction::lemma_direction_is_unit_step(found.direction);
        } else {
            assert forall|n: int| !#[trigger] lays_cell(cache[last], n, x, y) by {
                if lays_cell(cache[last], n, x, y) {
                    assert(covers_prefix(e.1->0, utf8_len(e.0), x, y));
                }
            }
            if color_of(cache, x, y) is None {
                assert forall|i: int, n: int| 0 <= i < cache.len() implies !#[trigger] lays_cell(cache[i], n, x, y) by {
                    if i < last {
                        assert(!lays_cell(rest[i], n, x, y));
                    }
                }
            } else {
                let (i, n) = choose|i: int, n: int|
                    {
                        &&& 0 <= i < rest.len()
                        &&& #[trigger] lays_cell(rest[i], n, x, y)
                        &&& color_of(rest, x, y)->0 == dir_index(rest[i].1->0.direction) + 1
                        &&& forall|j: int, m: int| i < j < rest.len() ==> !#[trigger] lays_cell(rest[j], m, x, y)
                    };
                assert(lays_cell(cache[i], n, x, y));
                assert forall|j: int, m: int| i < j < cache.len() implies !#[trigger] lays_cell(cache[j], m, x, y) by {
                    if j < last {
                        assert(!lays_cell(rest[j], m, x, y));
                    }
                }
                crate::direction::lemma_direction_is_unit_step(cache[i].1->0.direction);
            }
        }
    }
}

} // verus!
