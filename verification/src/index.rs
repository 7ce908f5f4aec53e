//! The letter index: for every letter, the cells that hold it, in reading order.

use std::collections::HashMap;
use vstd::prelude::*;

use crate::grid::{cell_before, in_grid};
use crate::layout::grid_bounded;
use crate::position::CrosswordPosition;

verus! {

broadcast use vstd::std_specs::hash::group_hash_axioms;

/// `ps` lists, in reading order and without repetition, at least one cell, and only
/// cells that hold the letter `c`.
pub open spec fn positions_wf(grid: Seq<Seq<char>>, c: u32, ps: Seq<CrosswordPosition>) -> bool {
    &&& ps.len() > 0
    &&& forall|j: int|
        0 <= j < ps.len() ==> in_grid(grid, (#[trigger] ps[j]).x as int, ps[j].y as int) && grid[ps[j].y as int][ps[j].x as int] as u32 == c
    &&& forall|i: int, j: int|
        0 <= i < j < ps.len() ==> cell_before(
            (#[trigger] ps[i]).x as int,
            ps[i].y as int,
            (#[trigger] ps[j]).x as int,
            ps[j].y as int,
        )
}

/// `ps` lists the cell `(x, y)`.
pub open spec fn lists_cell(ps: Seq<CrosswordPosition>, x: int, y: int) -> bool {
    exists|j: int| 0 <= j < ps.len() && (#[trigger] ps[j]).x == x && ps[j].y == y
}

/// `index` maps each letter (as a number) to the list, in reading order, of all the
/// cells that hold it.
pub open spec fn index_wf(grid: Seq<Seq<char>>, index: Map<u32, Vec<CrosswordPosition>>) -> bool {
    &&& forall|c: u32| #[trigger] index.contains_key(c) ==> positions_wf(grid, c, index[c]@)
    &&& forall|x: int, y: int|
        #![trigger grid[y][x]]
        in_grid(grid, x, y) ==> index.contains_key(grid[y][x] as u32) && lists_cell(
            index[grid[y][x] as u32]@,
            x,
            y,
        )
}

/// Adding the letter `c` at the cell after all others keeps a letter index right,
/// once `c`'s list gets that cell at its end.
proof fn lemma_index_add_cell(
    g: Seq<Seq<char>>,
    g2: Seq<Seq<char>>,
    idx: Map<u32, Vec<CrosswordPosition>>,
    idx2: Map<u32, Vec<CrosswordPosition>>,
    c: char,
    pos: CrosswordPosition,
)
    requires
        index_wf(g, idx),
        forall|x: int, y: int|
            #![trigger g2[y][x]]
            in_grid(g, x, y) ==> in_grid(g2, x, y) && g2[y][x] == g[y][x],
        forall|x: int, y: int|
            #![trigger g2[y][x]]
            in_grid(g2, x, y) ==> in_grid(g, x, y) || (x == pos.x && y == pos.y),
        in_grid(g2, pos.x as int, pos.y as int),
        !in_grid(g, pos.x as int, pos.y as int),
        g2[pos.y as int][pos.x as int] == c,
        forall|x: int, y: int|
            #![trigger g[y][x]]
            in_grid(g, x, y) ==> cell_before(x, y, pos.x as int, pos.y as int),
        idx2.dom() == idx.dom().insert(c as u32),
        forall|k: u32| k != c as u32 && #[trigger] idx.contains_key(k) ==> idx2[k] == idx[k],
        idx2[c as u32]@ == (if idx.contains_key(c as u32) {
            idx[c as u32]@
        } else {
            Seq::<CrosswordPosition>::empty()
        }).push(pos),
    ensures
        index_wf(g2, idx2),
{
    let key = c as u32;
    let old_ps = if idx.contains_key(key) {
        idx[key]@
    } else {
        Seq::<CrosswordPosition>::empty()
    };
    let new_ps = idx2[key]@;
    assert forall|k: u32| #[trigger] idx2.contains_key(k) implies positions_wf(g2, k, idx2[k]@) by {
        if k != key {
            assert(idx.contains_key(k));
            assert(positions_wf(g, k, idx[k]@));
            let ps = idx[k]@;
            assert forall|j: int| 0 <= j < ps.len() implies in_grid(
                g2,
                (#[trigger] ps[j]).x as int,
                ps[j].y as int,
            ) && g2[ps[j].y as int][ps[j].x as int] as u32 == k by {
                let x = ps[j].x as int;
                let y = ps[j].y as int;
                assert(in_grid(g, x, y));
                assert(g2[y][x] == g[y][x]);
            }
        } else {
            if idx.contains_key(key) {
                assert(positions_wf(g, key, idx[key]@));
            }
            assert forall|j: int| 0 <= j < new_ps.len() implies in_grid(
                g2,
                (#[trigger] new_ps[j]).x as int,
                new_ps[j].y as int,
            ) && g2[new_ps[j].y as int][new_ps[j].x as int] as u32 == key by {
                if j < old_ps.len() {
                    assert(new_ps[j] == old_ps[j]);
                    let x = old_ps[j].x as int;
                    let y = old_ps[j].y as int;
                    assert(in_grid(g, x, y));
                    assert(g2[y][x] == g[y][x]);
                } else {
                    assert(new_ps[j] == pos);
                }
            }
            assert forall|i: int, j: int| 0 <= i < j < new_ps.len() implies cell_before(
                (#[trigger] new_ps[i]).x as int,
                new_ps[i].y as int,
                (#[trigger] new_ps[j]).x as int,
                new_ps[j].y as int,
            ) by {
                assert(new_ps[i] == old_ps[i]);
                let xi = old_ps[i].x as int;
                let yi = old_ps[i].y as int;
                assert(in_grid(g, xi, yi));
                if j < old_ps.len() {
                    assert(new_ps[j] == old_ps[j]);
                } else {
                    assert(new_ps[j] == pos);
                }
            }
        }
    }
    assert forall|x: int, y: int|
        #![trigger g2[y][x]]
        in_grid(g2, x, y) implies idx2.contains_key(g2[y][x] as u32) && lists_cell(
            idx2[g2[y][x] as u32]@,
            x,
            y,
        ) by {
        if x == pos.x && y == pos.y {
            assert(new_ps[old_ps.len() as int] == pos);
        } else {
            let _letter = g2[y][x];
            assert(in_grid(g, x, y));
            assert(g[y][x] == g2[y][x]);
            let k = g[y][x] as u32;
            assert(idx.contains_key(k) && lists_cell(idx[k]@, x, y));
            if k != key {
                assert(idx2[k] == idx[k]);
            } else {
                let j = choose|j: int| 0 <= j < old_ps.len() && (#[trigger] old_ps[j]).x == x && old_ps[j].y == y;
                assert(new_ps[j] == old_ps[j]);
            }
        }
    }
}

/// The cells read so far when indexing `g` row by row from the top: all rows above
/// row `cy`, and the first `cx` cells of row `cy`.
pub open spec fn visited(g: Seq<Seq<char>>, cy: int, cx: int) -> Seq<Seq<char>> {
    Seq::new(
        g.len(),
        |r: int|
            if r > cy {
                g[r]
            } else if r == cy {
                g[r].take(cx)
            } else {
                Seq::<char>::empty()
            },
    )
}

/// Reading cell `(cx, cy)` adds it after every cell read so far.
proof fn lemma_visited_push(g: Seq<Seq<char>>, cy: int, cx: int)
    requires
        0 <= cy < g.len(),
        0 <= cx < g[cy].len(),
    ensures
        ({
            let v = visited(g, cy, cx);
            let v2 = visited(g, cy, cx + 1);
            &&& forall|x1: int, y1: int|
                #![trigger v2[y1][x1]]
                in_grid(v, x1, y1) ==> in_grid(v2, x1, y1) && v2[y1][x1] == v[y1][x1]
            &&& forall|x1: int, y1: int|
                #![trigger v2[y1][x1]]
                in_grid(v2, x1, y1) ==> in_grid(v, x1, y1) || (x1 == cx && y1 == cy)
            &&& in_grid(v2, cx, cy)
            &&& !in_grid(v, cx, cy)
            &&& v2[cy][cx] == g[cy][cx]
            &&& forall|x1: int, y1: int|
                #![trigger v[y1][x1]]
                in_grid(v, x1, y1) ==> cell_before(x1, y1, cx, cy)
        }),
{
    let v = visited(g, cy, cx);
    let v2 = visited(g, cy, cx + 1);
    assert(v2[cy] == g[cy].take(cx + 1));
    assert(v[cy] == g[cy].take(cx));
    assert forall|x1: int, y1: int|
        #![trigger v2[y1][x1]]
        in_grid(v, x1, y1) implies in_grid(v2, x1, y1) && v2[y1][x1] == v[y1][x1] by {
        if y1 == cy {
            assert(v2[y1][x1] == g[cy][x1]);
        }
    }
    assert forall|x1: int, y1: int|
        #![trigger v[y1][x1]]
        in_grid(v, x1, y1) implies cell_before(x1, y1, cx, cy) by {
        if y1 < cy {
            assert(v[y1].len() == 0);
        }
    }
}

/// A cell that holds the letter `c` and comes before the `j`-th entry of `c`'s list (or
/// anywhere, when `j` is the list's length) is one of the first `j` entries.
pub proof fn lemma_earlier_cell_listed(
    g: Seq<Seq<char>>,
    idx: Map<u32, Vec<CrosswordPosition>>,
    c: u32,
    j: int,
    x: int,
    y: int,
)
    requires
        index_wf(g, idx),
        idx.contains_key(c),
        in_grid(g, x, y),
        g[y][x] as u32 == c,
        0 <= j <= idx[c]@.len(),
        j < idx[c]@.len() ==> cell_before(x, y, idx[c]@[j].x as int, idx[c]@[j].y as int),
    ensures
        exists|m: int| 0 <= m < j && (#[trigger] idx[c]@[m]).x == x && idx[c]@[m].y == y,
{
    let ps = idx[c]@;
    let _letter = g[y][x];
    assert(lists_cell(ps, x, y));
    let m = choose|m: int| 0 <= m < ps.len() && (#[trigger] ps[m]).x == x && ps[m].y == y;
    assert(positions_wf(g, c, ps));
    if m >= j {
        if m > j {
            assert(cell_before(ps[j].x as int, ps[j].y as int, ps[m].x as int, ps[m].y as int));
        }
    }
}

/// Two lists of cells, each in strict reading order, that list the same cells are the
/// same list.
proof fn lemma_same_cells_same_list(a: Seq<CrosswordPosition>, b: Seq<CrosswordPosition>)
    requires
        forall|i: int, j: int|
            0 <= i < j < a.len() ==> cell_before(
                (#[trigger] a[i]).x as int,
                a[i].y as int,
                (#[trigger] a[j]).x as int,
                a[j].y as int,
            ),
        forall|i: int, j: int|
            0 <= i < j < b.len() ==> cell_before(
                (#[trigger] b[i]).x as int,
                b[i].y as int,
                (#[trigger] b[j]).x as int,
                b[j].y as int,
            ),
        forall|i: int| 0 <= i < a.len() ==> lists_cell(b, (#[trigger] a[i]).x as int, a[i].y as int),
        forall|j: int| 0 <= j < b.len() ==> lists_cell(a, (#[trigger] b[j]).x as int, b[j].y as int),
    ensures
        a == b,
    decreases a.len(),
{
    if a.len() == 0 || b.len() == 0 {
        if a.len() > 0 {
            assert(lists_cell(b, a[0].x as int, a[0].y as int));
        }
        if b.len() > 0 {
            assert(lists_cell(a, b[0].x as int, b[0].y as int));
        }
        assert(a =~= b);
    } else {
        assert(lists_cell(b, a[0].x as int, a[0].y as int));
        assert(lists_cell(a, b[0].x as int, b[0].y as int));
        let m = choose|m: int| 0 <= m < b.len() && (#[trigger] b[m]).x == a[0].x && b[m].y == a[0].y;
        let k = choose|k: int| 0 <= k < a.len() && (#[trigger] a[k]).x == b[0].x && a[k].y == b[0].y;
        if m > 0 {
            assert(cell_before(b[0].x as int, b[0].y as int, b[m].x as int, b[m].y as int));
            if k > 0 {
                assert(cell_before(a[0].x as int, a[0].y as int, a[k].x as int, a[k].y as int));
            }
        }
        assert(a[0] == b[0]);
        let a2 = a.drop_first();
        let b2 = b.drop_first();
        assert forall|i: int| 0 <= i < a2.len() implies lists_cell(b2, (#[trigger] a2[i]).x as int, a2[i].y as int) by {
            assert(a2[i] == a[i + 1]);
            assert(lists_cell(b, a[i + 1].x as int, a[i + 1].y as int));
            let m2 = choose|m2: int| 0 <= m2 < b.len() && (#[trigger] b[m2]).x == a[i + 1].x && b[m2].y == a[i + 1].y;
            assert(cell_before(a[0].x as int, a[0].y as int, a[i + 1].x as int, a[i + 1].y as int));
            assert(m2 != 0);
            assert(b2[m2 - 1] == b[m2]);
        }
        assert forall|j: int| 0 <= j < b2.len() implies lists_cell(a2, (#[trigger] b2[j]).x as int, b2[j].y as int) by {
            assert(b2[j] == b[j + 1]);
            assert(lists_cell(a, b[j + 1].x as int, b[j + 1].y as int));
            let k2 = choose|k2: int| 0 <= k2 < a.len() && (#[trigger] a[k2]).x == b[j + 1].x && a[k2].y == b[j + 1].y;
            assert(cell_before(b[0].x as int, b[0].y as int, b[j + 1].x as int, b[j + 1].y as int));
            assert(k2 != 0);
            assert(a2[k2 - 1] == a[k2]);
        }
        assert forall|i: int, j: int| 0 <= i < j < a2.len() implies cell_before(
            (#[trigger] a2[i]).x as int,
            a2[i].y as int,
            (#[trigger] a2[j]).x as int,
            a2[j].y as int,
        ) by {
            assert(a2[i] == a[i + 1] && a2[j] == a[j + 1]);
        }
        assert forall|i: int, j: int| 0 <= i < j < b2.len() implies cell_before(
            (#[trigger] b2[i]).x as int,
            b2[i].y as int,
            (#[trigger] b2[j]).x as int,
            b2[j].y as int,
        ) by {
            assert(b2[i] == b[i + 1] && b2[j] == b[j + 1]);
        }
        lemma_same_cells_same_list(a2, b2);
        assert forall|i: int| 0 <= i < a.len() implies a[i] == b[i] by {
            if i > 0 {
                assert(a[i] == a2[i - 1] && b[i] == b2[i - 1]);
            }
        }
        assert(a =~= b);
    }
}

/// A grid has one letter index only: two letter indexes of it hold the same letters,
/// each with the same list of cells.
pub proof fn lemma_index_unique(
    g: Seq<Seq<char>>,
    i1: Map<u32, Vec<CrosswordPosition>>,
    i2: Map<u32, Vec<CrosswordPosition>>,
)
    requires
        index_wf(g, i1),
        index_wf(g, i2),
    ensures
        i1.dom() == i2.dom(),
        forall|c: u32| #[trigger] i1.contains_key(c) ==> i1[c]@ == i2[c]@,
{
    assert forall|c: u32| #[trigger] i1.contains_key(c) implies i2.contains_key(c) by {
        let p = i1[c]@[0];
        assert(positions_wf(g, c, i1[c]@));
        let _letter = g[p.y as int][p.x as int];
    }
    assert forall|c: u32| #[trigger] i2.contains_key(c) implies i1.contains_key(c) by {
        let p = i2[c]@[0];
        assert(positions_wf(g, c, i2[c]@));
        let _letter = g[p.y as int][p.x as int];
    }
    assert(i1.dom() =~= i2.dom());
    assert forall|c: u32| #[trigger] i1.contains_key(c) implies i1[c]@ == i2[c]@ by {
        let a = i1[c]@;
        let b = i2[c]@;
        assert(positions_wf(g, c, a));
        assert(positions_wf(g, c, b));
        assert forall|i: int| 0 <= i < a.len() implies lists_cell(b, (#[trigger] a[i]).x as int, a[i].y as int) by {
            let _letter = g[a[i].y as int][a[i].x as int];
        }
        assert forall|j: int| 0 <= j < b.len() implies lists_cell(a, (#[trigger] b[j]).x as int, b[j].y as int) by {
            let _letter = g[b[j].y as int][b[j].x as int];
        }
        lemma_same_cells_same_list(a, b);
    }
}

/// The letter index of the puzzle whose rows, from the top one down, are `rows`: for
/// each letter, its cells in reading order, a cell's `y` counting rows from the bottom.
pub fn index_letters(rows: &Vec<Vec<char>>) -> (index: HashMap<u32, Vec<CrosswordPosition>>)
    requires
        grid_bounded(rows@.map_values(|r: Vec<char>| r@).reverse()),
    ensures
        index_wf(rows@.map_values(|r: Vec<char>| r@).reverse(), index@),
{
    let ghost g = rows@.map_values(|r: Vec<char>| r@).reverse();
    let mut index: HashMap<u32, Vec<CrosswordPosition>> = HashMap::new();
    let mut y: usize = rows.len();
    proof {
        assert(index_wf(visited(g, y - 1, 0), index@)) by {
            let v = visited(g, y - 1, 0);
            assert forall|x: int, y1: int| #![trigger v[y1][x]] !in_grid(v, x, y1) by {
                if 0 <= y1 < v.len() {
                    assert(v[y1].len() == 0);
                }
            }
        }
    }
    while y > 0
        invariant
            g == rows@.map_values(|r: Vec<char>| r@).reverse(),
            g.len() == rows.len(),
            grid_bounded(g),
            y <= g.len(),
            index_wf(visited(g, y - 1, 0), index@),
        decreases y,
    {
        let cy = y - 1;
        let row = &rows[rows.len() - 1 - cy];
        assert(row@ == g[cy as int]);
        proof {
            assert(visited(g, y - 1, 0) =~= visited(g, cy as int, 0));
        }
        let mut x: usize = 0;
        while x < row.len()
            invariant
                g == rows@.map_values(|r: Vec<char>| r@).reverse(),
                grid_bounded(g),
                cy < g.len(),
                row@ == g[cy as int],
                x <= row.len(),
                index_wf(visited(g, cy as int, x as int), index@),
            decreases row.len() - x,
        {
            let c = row[x];
            let ghost old_index = index@;
            proof {
                assert(g[cy as int].len() <= isize::MAX);
            }
            let position = CrosswordPosition { x: x as isize, y: cy as isize };
            let key = c as u32;
            let mut positions = match index.remove(&key) {
                Some(v) => v,
                None => Vec::new(),
            };
            positions.push(position);
            index.insert(key, positions);
            proof {
                lemma_visited_push(g, cy as int, x as int);
                assert(index@.dom() =~= old_index.dom().insert(key));
                lemma_index_add_cell(
                    visited(g, cy as int, x as int),
                    visited(g, cy as int, x + 1),
                    old_index,
                    index@,
                    c,
                    position,
                );
            }
            x += 1;
        }
        proof {
            let v1 = visited(g, cy as int, x as int);
            let v2 = visited(g, cy - 1, 0);
            assert(g[cy as int].take(x as int) =~= g[cy as int]);
            assert forall|r: int| 0 <= r < v1.len() implies v1[r] =~= v2[r] by {
                if r == cy - 1 {
                    assert(v2[r] =~= g[r].take(0));
                }
            }
            assert(v1 =~= v2);
        }
        y = cy;
    }
    proof {
        assert(visited(g, -1, 0) =~= g);
    }
    index
}

} // verus!
