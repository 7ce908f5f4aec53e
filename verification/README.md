# crossword_solver

A word-search ("crossword") puzzle solver, verified with Verus.

A puzzle is built from a text of `width * height` bytes, cut into rows of `width`
letters that are kept in the order of the text; the text's first row is the top one.
A word is looked up in the eight compass directions, and an answer's `y` counts rows
from the bottom; the answer is the first cell in reading order (top row first, left to
right) from which the word can be read, with the first direction that works there in
the order Up, UpRight, Right, DownRight, Down, DownLeft, Left, UpLeft. Answers are
remembered (kept in dictionary order of their words, so the order of searches leaves no
trace), and the grid can be drawn, its last row first, with found words coloured by
their direction.

Layout:

- `src/` — the library, every function with its contract, proved by Verus:
  `direction`, `position` (cells and steps), `grid` (what an occurrence is),
  `layout` (cutting a text into rows), `index` (the letter index), `solver`
  (the puzzle), `paint` and `render` (drawing), `settings` (the command line's
  settings), `text` (characters and bytes).
- `tests/` — tests of the library.
- `app/` — the command-line program: argument handling and file reading around the
  library.
