//! The puzzle: building it from a text, looking words up, and drawing it.

use std::collections::HashMap;
use vstd::prelude::*;

use crate::direction::{dir_dx, dir_dy, dir_index, WordDirection, DIRECTION_COUNT};
use crate::paint::{color_of, covers_prefix, direction_key, is_color_table};
use crate::grid::{cell_before, first_occurrence, in_grid, is_first_occurrence, letter_at, occurs, spells_at, tried_before};
use crate::position::{step_x, step_y, CrosswordPosition};
use crate::render::{render, render_cells, render_from, BLUE, GREEN, ORANGE, PINK, PURPLE, RED, RESET, WHITE, YELLOW};
use crate::index::{index_letters, index_wf, lemma_earlier_cell_listed, lemma_index_unique, positions_wf};
use crate::layout::{chunk_rows, lemma_chunking_unique, exact_root, grid_bounded, is_chunking, lemma_root_between_squares};
use crate::order::{compare_words, lemma_word_before_irreflexive, lemma_word_before_transitive, word_before};
use crate::text::{chars_of, lemma_utf8_len_at_least_char_count, push_char, utf8_len};

verus! {

broadcast use vstd::std_specs::hash::group_hash_axioms;

/// Why a puzzle could not be built.
#[derive(Debug, Clone)]
pub enum CrosswordError {
    InvalidInput(&'static str),
}

/// The shape of a puzzle: letters per row, and rows.
pub struct CrosswordDimensions {
    pub width: usize,
    pub height: usize,
}

/// Where a word was found: its first letter's cell, and the direction it runs in.
#[derive(Debug, PartialEq, Eq, Copy, Clone)]
pub struct CrosswordWordData {
    pub position: CrosswordPosition,
    pub direction: WordDirection,
}

/// A puzzle grid together with an index from letters to the cells that hold them and
/// the answers found so far.
#[derive(Debug, PartialEq, Eq)]
pub struct CrosswordPuzzleSolver {
    /// The rows of letters in the order of the text they were cut from: row 0 is the
    /// text's first row, which is the top one.
    pub crossword: Vec<Vec<char>>,
    /// For each letter (as a number), the cells that hold it in reading order, a cell's
    /// `y` counting rows from the bottom.
    pub letter_index: HashMap<u32, Vec<CrosswordPosition>>,
    /// The words searched for so far, in dictionary order, each with its answer.
    pub cached_answers: Vec<(String, Option<CrosswordWordData>)>,
}

/// The answer to a search for `word`: its first occurrence, as a position and direction.
pub open spec fn answer(grid: Seq<Seq<char>>, word: Seq<char>) -> Option<CrosswordWordData> {
    match first_occurrence(grid, word) {
        Some(t) => Some(
            CrosswordWordData {
                position: CrosswordPosition { x: t.0 as isize, y: t.1 as isize },
                direction: t.2,
            },
        ),
        None => None,
    }
}

/// Each remembered answer is the answer for its (non-empty) word, and the words come
/// in strict dictionary order, so that no word is remembered twice and the memory holds
/// its words in one order whatever order they were searched in.
pub open spec fn cache_wf(grid: Seq<Seq<char>>, cache: Seq<(Seq<char>, Option<CrosswordWordData>)>) -> bool {
    &&& forall|i: int|
        0 <= i < cache.len() ==> (#[trigger] cache[i]).0.len() > 0 && utf8_len(cache[i].0)
            <= isize::MAX && cache[i].1 == answer(grid, cache[i].0)
    &&& forall|i: int, j: int|
        0 <= i < j < cache.len() ==> word_before((#[trigger] cache[i]).0, (#[trigger] cache[j]).0)
}

/// `i` is the place of `word` among the words of `cache`: after those that come
/// before it in dictionary order, and ahead of the others.
pub open spec fn is_slot(cache: Seq<(Seq<char>, Option<CrosswordWordData>)>, word: Seq<char>, i: int) -> bool {
    &&& 0 <= i <= cache.len()
    &&& forall|j: int| 0 <= j < i ==> word_before((#[trigger] cache[j]).0, word)
    &&& forall|j: int| i <= j < cache.len() ==> word_before(word, (#[trigger] cache[j]).0)
}

/// `word` has a remembered answer in `cache`.
pub open spec fn is_cached(cache: Seq<(Seq<char>, Option<CrosswordWordData>)>, word: Seq<char>) -> bool {
    exists|i: int| 0 <= i < cache.len() && (#[trigger] cache[i]).0 == word
}

/// The remembered answers after a search for `word`: unchanged when `word` was searched
/// for before, else with `word` and its answer added at its place in dictionary order
/// (at the end, should the words of `cache` leave it no such place).
pub open spec fn remember(
    cache: Seq<(Seq<char>, Option<CrosswordWordData>)>,
    grid: Seq<Seq<char>>,
    word: Seq<char>,
) -> Seq<(Seq<char>, Option<CrosswordWordData>)> {
    if is_cached(cache, word) {
        cache
    } else if exists|i: int| #[trigger] is_slot(cache, word, i) {
        cache.insert(choose|i: int| #[trigger] is_slot(cache, word, i), (word, answer(grid, word)))
    } else {
        cache.push((word, answer(grid, word)))
    }
}

/// A word has one place at most among the words of a memory.
proof fn lemma_slot_unique(cache: Seq<(Seq<char>, Option<CrosswordWordData>)>, word: Seq<char>, i: int, j: int)
    requires
        is_slot(cache, word, i),
        is_slot(cache, word, j),
    ensures
        i == j,
{
    if i < j {
        lemma_word_before_transitive(cache[i].0, word, cache[i].0);
        lemma_word_before_irreflexive(cache[i].0);
    } else if j < i {
        lemma_word_before_transitive(cache[j].0, word, cache[j].0);
        lemma_word_before_irreflexive(cache[j].0);
    }
}

/// The remembered answers after searches for `words`, in order.
pub open spec fn remember_all(
    cache: Seq<(Seq<char>, Option<CrosswordWordData>)>,
    grid: Seq<Seq<char>>,
    words: Seq<Seq<char>>,
) -> Seq<(Seq<char>, Option<CrosswordWordData>)>
    decreases words.len(),
{
    if words.len() == 0 {
        cache
    } else {
        remember(remember_all(cache, grid, words.drop_last()), grid, words.last())
    }
}

/// A word has an answer exactly when it occurs in the grid.
proof fn lemma_answer_some_iff_occurs(g: Seq<Seq<char>>, w: Seq<char>)
    requires
        w.len() > 0,
    ensures
        answer(g, w) is Some <==> occurs(g, w),
{
    if answer(g, w) is Some {
        let (x, y, d) = choose|x: int, y: int, d: WordDirection| is_first_occurrence(g, w, x, y, d);
        assert(in_grid(g, x, y) && spells_at(g, w, x, y, d));
    }
    if occurs(g, w) && answer(g, w) is None {
        crate::grid::lemma_occurrence_has_first(g, w);
    }
}

/// What a search answers is right: the word can be read from the answer's cell in the
/// answer's direction, and no candidate tried before it (cells in reading order, and at
/// one cell the directions in their order) reads the word.
pub proof fn lemma_answer_is_first_occurrence(grid: Seq<Seq<char>>, word: Seq<char>)
    requires
        grid_bounded(grid),
        answer(grid, word) is Some,
    ensures
        ({
            let found = answer(grid, word)->0;
            let x = found.position.x as int;
            let y = found.position.y as int;
            &&& in_grid(grid, x, y)
            &&& spells_at(grid, word, x, y, found.direction)
            &&& forall|x2: int, y2: int, d2: WordDirection|
                in_grid(grid, x2, y2) && tried_before(x2, y2, d2, x, y, found.direction)
                    ==> !#[trigger] spells_at(grid, word, x2, y2, d2)
        }),
{
    let (x, y, d) = choose|x: int, y: int, d: WordDirection| is_first_occurrence(grid, word, x, y, d);
    crate::grid::lemma_first_occurrence_is(grid, word, x, y, d);
    assert(grid[y].len() <= isize::MAX);
}

/// Searching again for a word changes nothing: its answer is remembered once.
pub proof fn lemma_remember_twice(
    cache: Seq<(Seq<char>, Option<CrosswordWordData>)>,
    grid: Seq<Seq<char>>,
    word: Seq<char>,
)
    ensures
        remember(remember(cache, grid, word), grid, word) == remember(cache, grid, word),
        is_cached(remember(cache, grid, word), word),
{
    if !is_cached(cache, word) {
        let e = (word, answer(grid, word));
        if exists|i: int| #[trigger] is_slot(cache, word, i) {
            let i = choose|i: int| #[trigger] is_slot(cache, word, i);
            assert(cache.insert(i, e)[i].0 == word);
        } else {
            let c2 = cache.push(e);
            assert(c2[cache.len() as int].0 == word);
        }
    }
}

/// What a search for `word` does to the puzzle `before`: it answers with the word's
/// first occurrence in the grid counted from the bottom, leaves the rows and the letter
/// index alone, remembers the answer, and changes nothing at all when the word was
/// searched for before.
pub open spec fn search_step(
    before: CrosswordPuzzleSolver,
    word: Seq<char>,
    r: Result<Option<CrosswordWordData>, CrosswordError>,
    after: CrosswordPuzzleSolver,
) -> bool {
    &&& after.wf()
    &&& after.crossword == before.crossword
    &&& after.index_view() == before.index_view()
    &&& r == Ok::<Option<CrosswordWordData>, CrosswordError>(answer(before.rows_from_bottom(), word))
    &&& after.cached() == remember(before.cached(), before.rows_from_bottom(), word)
    &&& is_cached(before.cached(), word) ==> after == before
}

/// `s` is a fresh puzzle cut from `text`: well formed, its rows the pieces of `width`
/// letters of the text in order, and nothing searched for yet.
pub open spec fn built_from(s: CrosswordPuzzleSolver, text: Seq<char>, width: int) -> bool {
    &&& s.wf()
    &&& is_chunking(s.grid(), text, width)
    &&& s.cached() == Seq::<(Seq<char>, Option<CrosswordWordData>)>::empty()
}

/// Two puzzles built from the same text with the same width are alike: the same rows,
/// the same letter index, and nothing remembered. So a square puzzle is the puzzle that
/// `new` builds from the same text with its side as width and height.
pub proof fn lemma_built_alike(a: CrosswordPuzzleSolver, b: CrosswordPuzzleSolver, text: Seq<char>, width: int)
    requires
        built_from(a, text, width),
        built_from(b, text, width),
    ensures
        a.grid() == b.grid(),
        a.index_view() == b.index_view(),
        a.cached() == b.cached(),
{
    lemma_chunking_unique(a.grid(), b.grid(), text, width);
    lemma_index_unique(a.rows_from_bottom(), a.letter_index@, b.letter_index@);
    assert(a.index_view() =~= b.index_view());
}

/// What a search answers: when the word can be read somewhere, its answer is a cell and
/// direction from which it reads, no cell earlier in reading order (rows from the top,
/// the greatest `y`, down; each row left to right) reads it in any direction, and at the
/// answer's cell no direction earlier in the order Up, UpRight, ..., UpLeft reads it;
/// when the answer is none, the word can be read nowhere.
pub proof fn lemma_search_finds_first_cell(
    before: CrosswordPuzzleSolver,
    word: Seq<char>,
    r: Result<Option<CrosswordWordData>, CrosswordError>,
    after: CrosswordPuzzleSolver,
)
    requires
        search_step(before, word, r, after),
        word.len() > 0,
    ensures
        r is Ok,
        r matches Ok(None) ==> forall|x: int, y: int, d: WordDirection|
            in_grid(before.rows_from_bottom(), x, y) ==> !#[trigger] spells_at(
                before.rows_from_bottom(),
                word,
                x,
                y,
                d,
            ),
        r matches Ok(Some(f)) ==> {
            let g = before.rows_from_bottom();
            let x = f.position.x as int;
            let y = f.position.y as int;
            &&& in_grid(g, x, y)
            &&& spells_at(g, word, x, y, f.direction)
            &&& forall|x2: int, y2: int, d2: WordDirection|
                in_grid(g, x2, y2) && (y2 > y || (y2 == y && x2 < x)) ==> !#[trigger] spells_at(
                    g,
                    word,
                    x2,
                    y2,
                    d2,
                )
            &&& forall|d2: WordDirection|
                dir_index(d2) < dir_index(f.direction) ==> !#[trigger] spells_at(g, word, x, y, d2)
        },
{
    let g = before.rows_from_bottom();
    assert(after.rows_from_bottom() == g);
    lemma_answer_some_iff_occurs(g, word);
    if answer(g, word) is Some {
        lemma_answer_is_first_occurrence(g, word);
        let f = answer(g, word)->0;
        let x = f.position.x as int;
        let y = f.position.y as int;
        assert forall|x2: int, y2: int, d2: WordDirection|
            in_grid(g, x2, y2) && (y2 > y || (y2 == y && x2 < x)) implies !#[trigger] spells_at(
                g,
                word,
                x2,
                y2,
                d2,
            ) by {
            assert(tried_before(x2, y2, d2, x, y, f.direction));
        }
        assert forall|d2: WordDirection| dir_index(d2) < dir_index(f.direction) implies !#[trigger] spells_at(
            g,
            word,
            x,
            y,
            d2,
        ) by {
            assert(tried_before(x, y, d2, x, y, f.direction));
        }
    }
}

/// Searching twice for the same word: the second search answers as the first did and
/// leaves the puzzle exactly as the first search left it.
pub proof fn lemma_search_twice(
    s0: CrosswordPuzzleSolver,
    s1: CrosswordPuzzleSolver,
    s2: CrosswordPuzzleSolver,
    word: Seq<char>,
    r1: Result<Option<CrosswordWordData>, CrosswordError>,
    r2: Result<Option<CrosswordWordData>, CrosswordError>,
)
    requires
        search_step(s0, word, r1, s1),
        search_step(s1, word, r2, s2),
    ensures
        r2 == r1,
        s2 == s1,
{
    lemma_remember_twice(s0.cached(), s0.rows_from_bottom(), word);
}

/// Along any run of searches, the rows and the letter index never change, every
/// search answers what a search of the puzzle as it was at the start would answer (so
/// no answer depends on the searches made before it), and the remembered answers at
/// the end are `remember_all` of the words searched for.
pub proof fn lemma_searches_in_sequence(
    states: Seq<CrosswordPuzzleSolver>,
    words: Seq<Seq<char>>,
    results: Seq<Result<Option<CrosswordWordData>, CrosswordError>>,
)
    requires
        states.len() == words.len() + 1,
        results.len() == words.len(),
        forall|i: int|
            0 <= i < words.len() ==> #[trigger] search_step(states[i], words[i], results[i], states[i + 1]),
    ensures
        forall|i: int|
            0 <= i < states.len() ==> (#[trigger] states[i]).crossword == states[0].crossword
                && states[i].index_view() == states[0].index_view(),
        forall|i: int|
            0 <= i < words.len() ==> #[trigger] results[i] == Ok::<Option<CrosswordWordData>, CrosswordError>(
                answer(states[0].rows_from_bottom(), words[i]),
            ),
        states.last().cached() == remember_all(states[0].cached(), states[0].rows_from_bottom(), words),
    decreases words.len(),
{
    if words.len() > 0 {
        let n = words.len() - 1;
        let states2 = states.drop_last();
        let words2 = words.drop_last();
        let results2 = results.drop_last();
        assert forall|i: int| 0 <= i < words2.len() implies #[trigger] search_step(
            states2[i],
            words2[i],
            results2[i],
            states2[i + 1],
        ) by {
            assert(search_step(states[i], words[i], results[i], states[i + 1]));
        }
        lemma_searches_in_sequence(states2, words2, results2);
        assert(states2.last() == states[n]);
        assert(search_step(states[n], words[n], results[n], states[n + 1]));
        assert(states[n].crossword == states[0].crossword);
        assert(states[n].rows_from_bottom() == states[0].rows_from_bottom());
        assert forall|i: int| 0 <= i < states.len() implies (#[trigger] states[i]).crossword == states[0].crossword
            && states[i].index_view() == states[0].index_view() by {
            if i < n + 1 {
                assert(states[i] == states2[i]);
            }
        }
        assert forall|i: int| 0 <= i < words.len() implies #[trigger] results[i] == Ok::<
            Option<CrosswordWordData>,
            CrosswordError,
        >(answer(states[0].rows_from_bottom(), words[i])) by {
            if i < n {
                assert(results[i] == results2[i]);
                assert(words[i] == words2[i]);
            }
        }
    }
}

/// Printing with words leaves the puzzle as searching for those words one after the
/// other does: same rows, same letter index and same remembered answers; printing
/// without words leaves it as it was.
pub proof fn lemma_print_is_searching(
    before: CrosswordPuzzleSolver,
    printed: CrosswordPuzzleSolver,
    words: Option<Seq<Seq<char>>>,
    states: Seq<CrosswordPuzzleSolver>,
    results: Seq<Result<Option<CrosswordWordData>, CrosswordError>>,
)
    requires
        printed.crossword == before.crossword,
        printed.index_view() == before.index_view(),
        printed.cached() == match words {
            Some(ws) => remember_all(before.cached(), before.rows_from_bottom(), ws),
            None => before.cached(),
        },
        states.len() > 0,
        states[0] == before,
        states.len() == match words {
            Some(ws) => ws.len() + 1,
            None => 1,
        },
        results.len() == states.len() - 1,
        words matches Some(ws) ==> forall|i: int|
            0 <= i < ws.len() ==> #[trigger] search_step(states[i], ws[i], results[i], states[i + 1]),
    ensures
        printed.crossword == states.last().crossword,
        printed.index_view() == states.last().index_view(),
        printed.cached() == states.last().cached(),
{
    match words {
        Some(ws) => {
            lemma_searches_in_sequence(states, ws, results);
            assert(states.last() == states[states.len() - 1]);
        },
        None => {
            assert(states.last() == states[0]);
        },
    }
}

impl CrosswordPuzzleSolver {
    /// The letters of the puzzle, row by row from the top: the views of `crossword`.
    pub open spec fn grid(&self) -> Seq<Seq<char>> {
        self.crossword@.map_values(|r: Vec<char>| r@)
    }

    /// The letters of the puzzle, row by row from the bottom: the grid in which searches
    /// run and answers are given, so that a cell's `y` counts rows from the bottom.
    pub open spec fn rows_from_bottom(&self) -> Seq<Seq<char>> {
        self.grid().reverse()
    }

    /// The words searched for so far, in dictionary order, each with its answer.
    pub open spec fn cached(&self) -> Seq<(Seq<char>, Option<CrosswordWordData>)> {
        self.cached_answers@.map_values(|e: (String, Option<CrosswordWordData>)| (e.0@, e.1))
    }

    /// The letter index: for each letter (as a number), its cells in reading order.
    pub open spec fn index_view(&self) -> Map<u32, Seq<CrosswordPosition>> {
        self.letter_index@.map_values(|v: Vec<CrosswordPosition>| v@)
    }

    /// The letter index describes the grid, and every remembered answer is right.
    pub open spec fn wf(&self) -> bool {
        &&& grid_bounded(self.rows_from_bottom())
        &&& index_wf(self.rows_from_bottom(), self.letter_index@)
        &&& cache_wf(self.rows_from_bottom(), self.cached())
    }

    /// Builds a puzzle of `dimensions.width` letters per row from `crossword`, whose
    /// text runs from the top row down: row `r` of `crossword` is the text's `r`-th
    /// piece of `width` letters. Searches count a cell's `y` from the bottom row, so the
    /// text's first row has the greatest `y`.
    ///
    /// Fails when the length of `crossword` in bytes is not `width * height`.
    pub fn new(crossword: String, dimensions: CrosswordDimensions) -> (r: Result<Self, CrosswordError>)
        requires
            dimensions.height * dimensions.width <= usize::MAX,
            dimensions.width > 0 || crossword@.len() > 0,
            utf8_len(crossword@) <= isize::MAX,
        ensures
            r is Ok <==> utf8_len(crossword@) == dimensions.height * dimensions.width,
            r matches Ok(s) ==> built_from(s, crossword@, dimensions.width as int),
            r matches Err(e) ==> e == CrosswordError::InvalidInput(
                "crossword actual data length does not match dimensions implied length",
            ),
    {
        let byte_len = crossword.as_str().len();
        if byte_len != dimensions.height * dimensions.width {
            return Err(
                CrosswordError::InvalidInput(
                    "crossword actual data length does not match dimensions implied length",
                ),
            );
        }
        let chars = chars_of(crossword.as_str());
        let width = dimensions.width;
        proof {
            lemma_utf8_len_at_least_char_count(crossword@);
            if chars.len() > 0 {
                assert(width > 0) by (nonlinear_arith)
                    requires
                        byte_len == dimensions.height * width,
                        byte_len > 0,
                ;
            }
        }
        let rows = chunk_rows(&chars, width);
        proof {
            let g = rows@.map_values(|r: Vec<char>| r@).reverse();
            assert forall|y: int| 0 <= y < g.len() implies (#[trigger] g[y]).len() <= isize::MAX by {
                assert(g[y] == rows@[rows.len() - 1 - y]@);
            }
        }
        let letter_index = index_letters(&rows);
        let solver = CrosswordPuzzleSolver { crossword: rows, letter_index, cached_answers: Vec::new() };
        proof {
            assert(solver.cached() =~= Seq::<(Seq<char>, Option<CrosswordWordData>)>::empty());
        }
        Ok(solver)
    }

    /// Builds a square puzzle from `crossword`, whose side is the square root of its
    /// length in bytes, that length taken as a `u32`. Fails when that number is not a
    /// square, and otherwise exactly when `new` with that side fails.
    pub fn square_puzzle(crossword: String) -> (r: Result<Self, CrosswordError>)
        requires
            crossword@.len() > 0,
            utf8_len(crossword@) <= isize::MAX,
        ensures
            match exact_root(utf8_len(crossword@) % 0x1_0000_0000) {
                None => r == Err::<Self, CrosswordError>(
                    CrosswordError::InvalidInput("crossword data is not square"),
                ),
                Some(side) => {
                    &&& r is Ok <==> utf8_len(crossword@) == side * side
                    &&& r matches Ok(s) ==> built_from(s, crossword@, side)
                    &&& r matches Err(e) ==> e == CrosswordError::InvalidInput(
                        "crossword actual data length does not match dimensions implied length",
                    )
                },
            },
    {
        let byte_len = crossword.as_str().len();
        let n = byte_len as u32;
        proof {
            assert(n as u64 == (byte_len as u64) % 0x1_0000_0000u64) by (bit_vector)
                requires
                    n == byte_len as u32,
            ;
        }
        let mut side: u64 = 0;
        loop
            invariant
                side * side <= n,
                side <= 0x1_0000,
            ensures
                side * side <= n < (side + 1) * (side + 1),
            decreases 0x1_0000 - side,
        {
            let next = side + 1;
            proof {
                assert(next * next <= 0x1_0001 * 0x1_0001) by (nonlinear_arith)
                    requires
                        next <= 0x1_0001,
                ;
            }
            if next * next > n as u64 {
                break;
            }
            proof {
                assert(next <= 0x1_0000) by (nonlinear_arith)
                    requires
                        next * next <= n,
                        n < 0x1_0000_0000,
                ;
            }
            side = next;
        }
        proof {
            lemma_root_between_squares(side as int, n as int);
        }
        if side * side != n as u64 {
            Err(CrosswordError::InvalidInput("crossword data is not square"))
        } else {
            let side = side as usize;
            Self::new(crossword, CrosswordDimensions { width: side, height: side })
        }
    }

    /// Looks `word` up in the puzzle: the first cell, in reading order, from which it can
    /// be read, and of the directions that work there the first in the order Up,
    /// UpRight, Right, DownRight, Down, DownLeft, Left, UpLeft. The answer is remembered;
    /// a word searched for before is answered from memory and changes nothing.
    pub fn find_word(&mut self, word: &str) -> (r: Result<Option<CrosswordWordData>, CrosswordError>)
        requires
            old(self).wf(),
            word@.len() > 0,
            utf8_len(word@) <= isize::MAX,
        ensures
            search_step(*old(self), word@, r, *final(self)),
            r matches Ok(a) && (a is Some <==> occurs(old(self).rows_from_bottom(), word@)),
    {
        let key = word.to_owned();
        let chars = chars_of(word);
        let ghost cache = self.cached();
        let ghost w = word@;
        let mut i: usize = 0;
        let mut past: bool = false;
        while !past && i < self.cached_answers.len()
            invariant
                self.wf(),
                cache == self.cached(),
                key@ == w,
                chars@ == w,
                w == word@,
                i <= cache.len(),
                forall|j: int| 0 <= j < i ==> word_before((#[trigger] cache[j]).0, w),
                past ==> i < cache.len() && word_before(w, cache[i as int].0),
            decreases cache.len() - i, if past { 0int } else { 1int },
        {
            assert(cache[i as int] == (self.cached_answers@[i as int].0@, self.cached_answers@[i as int].1));
            let known = chars_of(self.cached_answers[i].0.as_str());
            let order = compare_words(&known, &chars);
            if order == 0 {
                let a = self.cached_answers[i].1;
                proof {
                    assert(is_cached(cache, w));
                    assert(cache[i as int].1 == answer(self.rows_from_bottom(), w));
                    lemma_answer_some_iff_occurs(self.rows_from_bottom(), w);
                }
                return Ok(a);
            } else if order > 0 {
                past = true;
            } else {
                i += 1;
            }
        }
        proof {
            assert forall|j: int| i <= j < cache.len() implies word_before(w, (#[trigger] cache[j]).0) by {
                if j > i {
                    lemma_word_before_transitive(w, cache[i as int].0, cache[j].0);
                }
            }
            assert(is_slot(cache, w, i as int));
            assert forall|j: int| 0 <= j < cache.len() implies (#[trigger] cache[j]).0 != w by {
                lemma_word_before_irreflexive(w);
            }
            assert(!is_cached(cache, w));
        }
        let a = self.search(&chars);
        self.cached_answers.insert(i, (key, a));
        proof {
            let e = (w, a);
            let c2 = self.cached();
            assert(c2 =~= cache.insert(i as int, e));
            let chosen = choose|k: int| #[trigger] is_slot(cache, w, k);
            lemma_slot_unique(cache, w, i as int, chosen);
            assert forall|j: int, k: int| 0 <= j < k < c2.len() implies word_before(
                (#[trigger] c2[j]).0,
                (#[trigger] c2[k]).0,
            ) by {
                if k < i {
                } else if k == i {
                } else if j < i {
                    lemma_word_before_transitive(c2[j].0, w, c2[k].0);
                } else if j == i {
                } else {
                    assert(c2[j] == cache[j - 1] && c2[k] == cache[k - 1]);
                }
            }
        }
        Ok(a)
    }

    /// Searches for each of `words` (when given), then draws the grid: the last row of
    /// `crossword` first and its first row last, each row after a tab and ending in a line
    /// break, each letter followed by a space, and the letters of found words coloured by
    /// their direction.
    pub fn pretty_print(&mut self, words: Option<Vec<&str>>) -> (out: String)
        requires
            old(self).wf(),
            words matches Some(ws) ==> forall|i: int|
                0 <= i < ws.len() ==> (#[trigger] ws[i])@.len() > 0 && utf8_len(ws[i]@) <= isize::MAX,
        ensures
            final(self).wf(),
            final(self).crossword == old(self).crossword,
            final(self).index_view() == old(self).index_view(),
            final(self).cached() == match words {
                Some(ws) => remember_all(
                    old(self).cached(),
                    old(self).rows_from_bottom(),
                    ws@.map_values(|w: &str| w@),
                ),
                None => old(self).cached(),
            },
            out@ == render(final(self).grid(), final(self).cached()),
    {
        let ghost g = self.grid();
        let ghost gb = self.rows_from_bottom();
        let ghost crossword = self.crossword;
        let ghost index = self.index_view();
        if let Some(words) = words {
            let ghost start = self.cached();
            let ghost ws = words@.map_values(|w: &str| w@);
            let mut i: usize = 0;
            while i < words.len()
                invariant
                    self.wf(),
                    self.crossword == crossword,
                    self.index_view() == index,
                    gb == self.rows_from_bottom(),
                    ws == words@.map_values(|w: &str| w@),
                    forall|j: int|
                        0 <= j < words.len() ==> (#[trigger] words@[j])@.len() > 0 && utf8_len(words@[j]@)
                            <= isize::MAX,
                    i <= words.len(),
                    self.cached() == remember_all(start, gb, ws.take(i as int)),
                decreases words.len() - i,
            {
                let _ = self.find_word(words[i]);
                proof {
                    assert(ws.take(i + 1).drop_last() =~= ws.take(i as int));
                }
                i += 1;
            }
            proof {
                assert(ws.take(words.len() as int) =~= ws);
            }
        }
        let colored_coords = self.calculate_colored_coordinates();
        let ghost cache = self.cached();
        let ghost table = colored_coords@.map_values(|r: Vec<Option<i32>>| r@);
        let mut output = String::new();
        let mut y: usize = self.crossword.len();
        while y > 0
            invariant
                g == self.grid(),
                gb == self.rows_from_bottom(),
                cache == self.cached(),
                is_color_table(table, gb, cache),
                table == colored_coords@.map_values(|r: Vec<Option<i32>>| r@),
                y <= g.len(),
                output@ == render_from(g, cache, y as int),
            decreases y,
        {
            y -= 1;
            let ghost line_start = output@;
            output.append("\t");
            let row = &self.crossword[y];
            let colors = &colored_coords[self.crossword.len() - 1 - y];
            let ghost yb = g.len() - 1 - y;
            assert(row@ == g[y as int]);
            assert(gb[yb] == g[y as int]);
            assert(colors@ == table[yb]);
            let mut x: usize = 0;
            while x < row.len()
                invariant
                    g == self.grid(),
                    gb == self.rows_from_bottom(),
                    is_color_table(table, gb, cache),
                    y < g.len(),
                    yb == g.len() - 1 - y,
                    row@ == g[y as int],
                    gb[yb] == g[y as int],
                    colors@ == table[yb],
                    x <= row.len(),
                    output@ == line_start + "\t"@ + render_cells(g[y as int], yb, cache, x as int),
                decreases row.len() - x,
            {
                let c = row[x];
                let color = colors[x];
                assert(color == color_of(cache, x as int, yb));
                match color {
                    Some(key) => {
                        let code = if key == 1 {
                            RED
                        } else if key == 2 {
                            ORANGE
                        } else if key == 3 {
                            YELLOW
                        } else if key == 4 {
                            GREEN
                        } else if key == 5 {
                            BLUE
                        } else if key == 6 {
                            PURPLE
                        } else if key == 7 {
                            PINK
                        } else {
                            WHITE
                        };
                        output.append(code);
                        push_char(&mut output, c);
                        output.append(RESET);
                    },
                    None => {
                        push_char(&mut output, c);
                    },
                }
                output.append(" ");
                proof {
                    assert(output@ =~= line_start + "\t"@ + render_cells(g[y as int], yb, cache, x + 1));
                }
                x += 1;
            }
            output.append("\n");
            proof {
                assert(output@ =~= render_from(g, cache, y as int));
            }
        }
        output
    }

    /// The letter in column `position.x` of row `position.y` of `crossword` (rows counted
    /// from the top), if there is such a cell.
    fn get_letter(&self, position: CrosswordPosition) -> (r: Option<&char>)
        ensures
            match r {
                Some(c) => letter_at(self.grid(), position.x as int, position.y as int) == Some(*c),
                None => letter_at(self.grid(), position.x as int, position.y as int) is None,
            },
    {
        if position.x < 0 || position.y < 0 {
            return None;
        }
        if let Some(row) = self.crossword.as_slice().get(position.y as usize) {
            row.as_slice().get(position.x as usize)
        } else {
            None
        }
    }

    /// Whether `word` can be read from `position` in `direction`, the position's `y`
    /// counting rows from the bottom.
    fn spells_from(&self, position: CrosswordPosition, direction: WordDirection, word: &Vec<char>) -> (b: bool)
        requires
            grid_bounded(self.rows_from_bottom()),
            in_grid(self.rows_from_bottom(), position.x as int, position.y as int),
        ensures
            b == spells_at(self.rows_from_bottom(), word@, position.x as int, position.y as int, direction),
    {
        let ghost g = self.rows_from_bottom();
        let ghost x = position.x as int;
        let ghost y = position.y as int;
        let top: isize = (self.crossword.len() - 1) as isize;
        let mut i: usize = 0;
        while i < word.len()
            invariant
                grid_bounded(g),
                g == self.rows_from_bottom(),
                top == g.len() - 1,
                in_grid(g, x, y),
                x == position.x,
                y == position.y,
                i <= word.len(),
                forall|i2: int|
                    0 <= i2 < i ==> #[trigger] letter_at(g, step_x(x, direction, i2), step_y(y, direction, i2))
                        == Some(word@[i2]),
            decreases word.len() - i,
        {
            proof {
                if i > 0 {
                    let prev = (i - 1) as int;
                    assert(letter_at(g, step_x(x, direction, prev), step_y(y, direction, prev)) == Some(word@[prev]));
                    assert(g[step_y(y, direction, prev)].len() <= isize::MAX);
                }
            }
            let p = position.get_position_from_direction(&direction, i);
            let letter = if p.y < 0 || p.y > top {
                None
            } else {
                proof {
                    assert(g[p.y as int] == self.grid()[top - p.y]);
                }
                self.get_letter(CrosswordPosition { x: p.x, y: top - p.y })
            };
            assert(letter matches Some(l) ==> letter_at(g, p.x as int, p.y as int) == Some(*l));
            assert(letter is None ==> letter_at(g, p.x as int, p.y as int) is None);
            match letter {
                Some(l) => {
                    if *l != word[i] {
                        return false;
                    }
                },
                None => {
                    return false;
                },
            }
            i += 1;
        }
        true
    }

    /// The first occurrence of the non-empty `word`, found through the letter index.
    fn search(&self, word: &Vec<char>) -> (r: Option<CrosswordWordData>)
        requires
            self.wf(),
            word@.len() > 0,
        ensures
            r == answer(self.rows_from_bottom(), word@),
            r is Some <==> occurs(self.rows_from_bottom(), word@),
    {
        let ghost g = self.rows_from_bottom();
        let ghost w = word@;
        let first_char = word[0];
        let key = first_char as u32;
        match self.letter_index.get(&key) {
            None => {
                proof {
                    assert forall|x: int, y: int, d: WordDirection| in_grid(g, x, y) implies !#[trigger] spells_at(g, w, x, y, d) by {
                        if spells_at(g, w, x, y, d) {
                            assert(letter_at(g, step_x(x, d, 0), step_y(y, d, 0)) == Some(w[0]));
                            let _letter = g[y][x];
                        }
                    }
                    crate::grid::lemma_no_occurrence(g, w);
                }
                None
            },
            Some(positions) => {
                let ghost ps = positions@;
                assert(ps == self.letter_index@[key]@);
                assert(positions_wf(g, key, ps));
                let mut j: usize = 0;
                while j < positions.len()
                    invariant
                        self.wf(),
                        g == self.rows_from_bottom(),
                        w == word@,
                        w.len() > 0,
                        key == w[0] as u32,
                        self.letter_index@.contains_key(key),
                        ps == self.letter_index@[key]@,
                        ps == positions@,
                        positions_wf(g, key, ps),
                        j <= ps.len(),
                        forall|m: int, d: WordDirection|
                            0 <= m < j ==> !#[trigger] spells_at(g, w, ps[m].x as int, ps[m].y as int, d),
                    decreases ps.len() - j,
                {
                    let position = positions[j];
                    assert(ps[j as int] == position);
                    assert(in_grid(g, position.x as int, position.y as int));
                    let mut d: usize = 0;
                    while d < DIRECTION_COUNT
                        invariant
                            self.wf(),
                            g == self.rows_from_bottom(),
                            w == word@,
                            w.len() > 0,
                            key == w[0] as u32,
                            self.letter_index@.contains_key(key),
                            ps == self.letter_index@[key]@,
                            positions_wf(g, key, ps),
                            j < ps.len(),
                            position == ps[j as int],
                            in_grid(g, position.x as int, position.y as int),
                            d <= DIRECTION_COUNT,
                            forall|m: int, d2: WordDirection|
                                0 <= m < j ==> !#[trigger] spells_at(g, w, ps[m].x as int, ps[m].y as int, d2),
                            forall|d2: WordDirection|
                                dir_index(d2) < d ==> !#[trigger] spells_at(
                                    g,
                                    w,
                                    position.x as int,
                                    position.y as int,
                                    d2,
                                ),
                        decreases DIRECTION_COUNT - d,
                    {
                        let direction = WordDirection::from_index(d);
                        if self.spells_from(position, direction, word) {
                            let found = CrosswordWordData { position, direction };
                            proof {
                                let x = position.x as int;
                                let y = position.y as int;
                                assert forall|x2: int, y2: int, d2: WordDirection|
                                    in_grid(g, x2, y2) && tried_before(x2, y2, d2, x, y, direction)
                                    implies !#[trigger] spells_at(g, w, x2, y2, d2) by {
                                    if spells_at(g, w, x2, y2, d2) {
                                        assert(letter_at(g, step_x(x2, d2, 0), step_y(y2, d2, 0)) == Some(w[0]));
                                        if cell_before(x2, y2, x, y) {
                                            lemma_earlier_cell_listed(g, self.letter_index@, key, j as int, x2, y2);
                                        } else {
                                            crate::direction::lemma_dir_index_injective(d2, direction);
                                        }
                                    }
                                }
                                assert(is_first_occurrence(g, w, x, y, direction));
                                crate::grid::lemma_first_occurrence_is(g, w, x, y, direction);
                            }
                            return Some(found);
                        }
                        d += 1;
                    }
                    proof {
                        assert forall|m: int, d2: WordDirection|
                            0 <= m < j + 1 implies !#[trigger] spells_at(g, w, ps[m].x as int, ps[m].y as int, d2) by {
                            if m == j {
                                crate::direction::lemma_direction_is_unit_step(d2);
                            }
                        }
                    }
                    j += 1;
                }
                proof {
                    assert forall|x: int, y: int, d: WordDirection| in_grid(g, x, y) implies !#[trigger] spells_at(g, w, x, y, d) by {
                        if spells_at(g, w, x, y, d) {
                            assert(letter_at(g, step_x(x, d, 0), step_y(y, d, 0)) == Some(w[0]));
                            lemma_earlier_cell_listed(g, self.letter_index@, key, j as int, x, y);
                        }
                    }
                    crate::grid::lemma_no_occurrence(g, w);
                }
                None
            },
        }
    }

    /// The colour of every cell, rows counted from the bottom: the direction key of the
    /// remembered word, last in dictionary order, that runs over it, counting as many cells along each word as
    /// it has bytes.
    fn calculate_colored_coordinates(&self) -> (table: Vec<Vec<Option<i32>>>)
        requires
            self.wf(),
        ensures
            is_color_table(table@.map_values(|r: Vec<Option<i32>>| r@), self.rows_from_bottom(), self.cached()),
    {
        let ghost g = self.rows_from_bottom();
        let ghost cache = self.cached();
        let mut table: Vec<Vec<Option<i32>>> = Vec::new();
        let mut y: usize = 0;
        while y < self.crossword.len()
            invariant
                g == self.rows_from_bottom(),
                y <= g.len(),
                table.len() == y,
                forall|y2: int| 0 <= y2 < y ==> (#[trigger] table@[y2])@.len() == g[y2].len(),
                forall|x2: int, y2: int|
                    0 <= y2 < y && 0 <= x2 < g[y2].len() ==> #[trigger] table@[y2]@[x2] == None::<i32>,
            decreases g.len() - y,
        {
            let mut row: Vec<Option<i32>> = Vec::new();
            let mut x: usize = 0;
            while x < self.crossword[self.crossword.len() - 1 - y].len()
                invariant
                    g == self.rows_from_bottom(),
                    y < g.len(),
                    x <= g[y as int].len(),
                    row.len() == x,
                    forall|x2: int| 0 <= x2 < x ==> #[trigger] row@[x2] == None::<i32>,
                decreases g[y as int].len() - x,
            {
                row.push(None);
                x += 1;
            }
            table.push(row);
            y += 1;
        }
        let mut i: usize = 0;
        while i < self.cached_answers.len()
            invariant
                self.wf(),
                g == self.rows_from_bottom(),
                cache == self.cached(),
                i <= cache.len(),
                table.len() == g.len(),
                forall|y2: int| 0 <= y2 < g.len() ==> (#[trigger] table@[y2])@.len() == g[y2].len(),
                forall|x2: int, y2: int|
                    0 <= y2 < g.len() && 0 <= x2 < g[y2].len() ==> #[trigger] table@[y2]@[x2]
                        == color_of(cache.take(i as int), x2, y2),
            decreases cache.len() - i,
        {
            let ghost before = cache.take(i as int);
            assert(cache.take(i + 1).drop_last() =~= before);
            assert(cache[i as int] == (self.cached_answers@[i as int].0@, self.cached_answers@[i as int].1));
            if let Some(found) = self.cached_answers[i].1 {
                let (dx, dy) = found.direction.get_relative_x_y();
                let key: i32 = match found.direction {
                    WordDirection::Up => 1,
                    WordDirection::UpRight => 2,
                    WordDirection::Right => 3,
                    WordDirection::DownRight => 4,
                    WordDirection::Down => 5,
                    WordDirection::DownLeft => 6,
                    WordDirection::Left => 7,
                    WordDirection::UpLeft => 8,
                };
                let count = self.cached_answers[i].0.as_str().len();
                let mut n: usize = 0;
                while n < count
                    invariant
                        g == self.rows_from_bottom(),
                        cache == self.cached(),
                        i < cache.len(),
                        before == cache.take(i as int),
                        cache[i as int].1 == Some(found),
                        key == direction_key(found),
                        dx == dir_dx(found.direction),
                        dy == dir_dy(found.direction),
                        n <= count,
                        table.len() == g.len(),
                        forall|y2: int| 0 <= y2 < g.len() ==> (#[trigger] table@[y2])@.len() == g[y2].len(),
                        forall|x2: int, y2: int|
                            0 <= y2 < g.len() && 0 <= x2 < g[y2].len() ==> #[trigger] table@[y2]@[x2]
                                == if covers_prefix(found, n as int, x2, y2) {
                                Some(key)
                            } else {
                                color_of(before, x2, y2)
                            },
                    decreases count - n,
                {
                    proof {
                        crate::direction::lemma_direction_is_unit_step(found.direction);
                        assert(-0x1_0000_0000_0000_0000 <= (dx as i128) * (n as i128) <= 0x1_0000_0000_0000_0000) by (nonlinear_arith)
                            requires
                                -1 <= dx <= 1,
                                0 <= n < 0x1_0000_0000_0000_0000,
                        ;
                        assert(-0x1_0000_0000_0000_0000 <= (dy as i128) * (n as i128) <= 0x1_0000_0000_0000_0000) by (nonlinear_arith)
                            requires
                                -1 <= dy <= 1,
                                0 <= n < 0x1_0000_0000_0000_0000,
                        ;
                    }
                    let cx: i128 = found.position.x as i128 + (dx as i128) * (n as i128);
                    let cy: i128 = found.position.y as i128 + (dy as i128) * (n as i128);
                    proof {
                        crate::position::lemma_step_is_scaled_relative_step(
                            found.position.x as int,
                            found.position.y as int,
                            found.direction,
                            n as int,
                        );
                    }
                    let ghost old_table = table@;
                    if 0 <= cx && 0 <= cy && cy < table.len() as i128 && cx < table[cy as usize].len() as i128 {
                        let row_index = cy as usize;
                        let col_index = cx as usize;
                        let mut row = table[row_index].clone();
                        row.set(col_index, Some(key));
                        table.set(row_index, row);
                    }
                    proof {
                        assert forall|x2: int, y2: int|
                            0 <= y2 < g.len() && 0 <= x2 < g[y2].len() implies #[trigger] table@[y2]@[x2]
                                == if covers_prefix(found, n + 1, x2, y2) {
                                Some(key)
                            } else {
                                color_of(before, x2, y2)
                            } by {
                            if x2 == cx && y2 == cy {
                                assert(covers_prefix(found, n + 1, x2, y2)) by {
                                    assert(x2 == step_x(found.position.x as int, found.direction, n as int));
                                }
                            } else {
                                assert(old_table[y2]@[x2] == table@[y2]@[x2]);
                                if covers_prefix(found, n + 1, x2, y2) {
                                    let m = choose|m: int|
                                        0 <= m < n + 1 && x2 == #[trigger] step_x(
                                            found.position.x as int,
                                            found.direction,
                                            m,
                                        ) && y2 == step_y(found.position.y as int, found.direction, m);
                                    assert(m != n);
                                }
                            }
                        }
                    }
                    n += 1;
                }
            }
            i += 1;
        }
        proof {
            assert(cache.take(cache.len() as int) =~= cache);
            let t = table@.map_values(|r: Vec<Option<i32>>| r@);
            assert forall|x2: int, y2: int|
                0 <= y2 < g.len() && 0 <= x2 < g[y2].len() implies #[trigger] t[y2][x2] == color_of(cache, x2, y2) by {
                assert(t[y2] == table@[y2]@);
            }
            assert forall|y2: int| 0 <= y2 < g.len() implies (#[trigger] t[y2]).len() == g[y2].len() by {
                assert(t[y2] == table@[y2]@);
            }
        }
        table
    }
}

} // verus!
