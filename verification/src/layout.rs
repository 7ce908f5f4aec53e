//! Cutting a text into rows of a given width, and the square root that a square
//! puzzle's side comes from.

use vstd::prelude::*;

verus! {

/// `grid` is `text` cut into rows of `width` letters, the last row holding what is left.
pub open spec fn is_chunking(grid: Seq<Seq<char>>, text: Seq<char>, width: int) -> bool {
    &&& grid.flatten() == text
    &&& forall|r: int| 0 <= r < grid.len() - 1 ==> (#[trigger] grid[r]).len() == width
    &&& grid.len() > 0 ==> 0 < grid.last().len() <= width
}

/// A grid whose last row is not empty has letters.
proof fn lemma_flatten_covers_last(grid: Seq<Seq<char>>)
    requires
        grid.len() > 0,
    ensures
        grid.flatten().len() >= grid.last().len(),
{
    grid.lemma_flatten_and_flatten_alt_are_equivalent();
    grid.lemma_flatten_length_ge_single_element_length(grid.len() - 1);
}

/// The rows after the first of a cutting are a cutting of the rest of the text.
proof fn lemma_chunking_rest(grid: Seq<Seq<char>>, text: Seq<char>, width: int)
    requires
        is_chunking(grid, text, width),
        grid.len() >= 2,
    ensures
        grid[0].len() == width,
        grid[0] == text.take(width),
        is_chunking(grid.drop_first(), text.skip(width), width),
        grid.drop_first().len() > 0,
{
    let rest = grid.drop_first();
    assert(grid.flatten() == grid.first() + rest.flatten());
    assert(grid[0].len() == width);
    assert(text.take(width) =~= grid[0]);
    assert(text.skip(width) =~= rest.flatten());
    assert forall|r: int| 0 <= r < rest.len() - 1 implies (#[trigger] rest[r]).len() == width by {
        assert(rest[r] == grid[r + 1]);
    }
    assert(rest.last() == grid.last());
}

/// A text is cut into rows of a given width in one way only.
pub proof fn lemma_chunking_unique(g1: Seq<Seq<char>>, g2: Seq<Seq<char>>, text: Seq<char>, width: int)
    requires
        is_chunking(g1, text, width),
        is_chunking(g2, text, width),
    ensures
        g1 == g2,
    decreases g1.len(),
{
    if g1.len() == 0 || g2.len() == 0 {
        if g1.len() > 0 {
            lemma_flatten_covers_last(g1);
        }
        if g2.len() > 0 {
            lemma_flatten_covers_last(g2);
        }
        assert(g1 =~= g2);
    } else if g1.len() == 1 || g2.len() == 1 {
        assert(g1.flatten() == g1.first() + g1.drop_first().flatten());
        assert(g2.flatten() == g2.first() + g2.drop_first().flatten());
        if g1.len() >= 2 {
            lemma_chunking_rest(g1, text, width);
            lemma_flatten_covers_last(g1.drop_first());
            assert(g1.drop_first().last() == g1.last());
        }
        if g2.len() >= 2 {
            lemma_chunking_rest(g2, text, width);
            lemma_flatten_covers_last(g2.drop_first());
            assert(g2.drop_first().last() == g2.last());
        }
        assert(g1.drop_first().len() == 0);
        assert(g2.drop_first().len() == 0);
        assert(g1[0] =~= text);
        assert(g2[0] =~= text);
        assert(g1 =~= g2);
    } else {
        lemma_chunking_rest(g1, text, width);
        lemma_chunking_rest(g2, text, width);
        lemma_chunking_unique(g1.drop_first(), g2.drop_first(), text.skip(width), width);
        assert forall|r: int| 0 <= r < g1.len() implies g1[r] == g2[r] by {
            if r > 0 {
                assert(g1[r] == g1.drop_first()[r - 1]);
                assert(g2[r] == g2.drop_first()[r - 1]);
            }
        }
        assert(g1 =~= g2);
    }
}

/// Every row, and the number of rows, fit in an `isize`.
pub open spec fn grid_bounded(grid: Seq<Seq<char>>) -> bool {
    &&& grid.len() <= isize::MAX
    &&& forall|y: int| 0 <= y < grid.len() ==> (#[trigger] grid[y]).len() <= isize::MAX
}

/// The natural number whose square is `n`, if there is one.
pub open spec fn exact_root(n: int) -> Option<int> {
    if exists|k: int| 0 <= k && #[trigger] (k * k) == n {
        Some(choose|k: int| 0 <= k && #[trigger] (k * k) == n)
    } else {
        None
    }
}

/// Between two consecutive squares lies no square.
pub proof fn lemma_root_between_squares(k: int, n: int)
    requires
        0 <= k,
        k * k <= n < (k + 1) * (k + 1),
    ensures
        exact_root(n) == (if k * k == n { Some(k) } else { None::<int> }),
{
    assert forall|j: int| 0 <= j && #[trigger] (j * j) == n implies j == k by {
        if j < k {
            assert(j * j < k * k) by (nonlinear_arith)
                requires
                    0 <= j < k,
            ;
        } else if j > k {
            assert(j * j >= (k + 1) * (k + 1)) by (nonlinear_arith)
                requires
                    j >= k + 1,
                    k >= 0,
            ;
        }
    }
}

/// `chars` cut into rows of `width` letters, the last row holding what is left.
pub fn chunk_rows(chars: &Vec<char>, width: usize) -> (rows: Vec<Vec<char>>)
    requires
        width > 0 || chars.len() == 0,
    ensures
        is_chunking(rows@.map_values(|r: Vec<char>| r@), chars@, width as int),
        rows.len() <= chars.len(),
        forall|r: int| 0 <= r < rows.len() ==> (#[trigger] rows@[r]).len() <= chars.len(),
{
    let mut rows: Vec<Vec<char>> = Vec::new();
    let mut current: Vec<char> = Vec::new();
    let mut k: usize = 0;
    while k < chars.len()
        invariant
            k <= chars.len(),
            chars.len() > 0 ==> width > 0,
            current.len() < width || chars.len() == 0,
            rows.len() + current.len() <= k,
            forall|r: int| 0 <= r < rows.len() ==> (#[trigger] rows@[r]).len() == width,
            rows.len() > 0 ==> width <= k,
            rows@.map_values(|r: Vec<char>| r@).flatten() + current@ == chars@.take(k as int),
        decreases chars.len() - k,
    {
        let c = chars[k];
        proof {
            assert(chars@.take(k as int).push(c) =~= chars@.take(k + 1));
        }
        current.push(c);
        if current.len() == width {
            proof {
                rows@.map_values(|r: Vec<char>| r@).lemma_flatten_push(current@);
                assert(rows@.push(current).map_values(|r: Vec<char>| r@) =~= rows@.map_values(
                    |r: Vec<char>| r@,
                ).push(current@));
            }
            rows.push(current);
            current = Vec::new();
        }
        k += 1;
    }
    let ghost full_rows = rows@;
    proof {
        assert(chars@.take(k as int) =~= chars@);
    }
    if current.len() > 0 {
        proof {
            rows@.map_values(|r: Vec<char>| r@).lemma_flatten_push(current@);
            assert(rows@.push(current).map_values(|r: Vec<char>| r@) =~= rows@.map_values(
                |r: Vec<char>| r@,
            ).push(current@));
        }
        rows.push(current);
    } else {
        assert(rows@.map_values(|r: Vec<char>| r@).flatten() + current@ =~= rows@.map_values(
            |r: Vec<char>| r@,
        ).flatten());
    }
    proof {
        let g = rows@.map_values(|r: Vec<char>| r@);
        assert forall|r: int| 0 <= r < g.len() - 1 implies (#[trigger] g[r]).len() == width by {
            assert(rows@[r] == full_rows[r]);
        }
        if g.len() > 0 {
            assert(g.last() == rows@[rows.len() - 1]@);
        }
        assert forall|r: int| 0 <= r < rows.len() implies (#[trigger] rows@[r]).len() <= chars.len() by {
            if r < full_rows.len() {
                assert(rows@[r] == full_rows[r]);
            }
        }
    }
    rows
}

} // verus!
