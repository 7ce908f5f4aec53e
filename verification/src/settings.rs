//! The command line's settings: which files it names, and what the word list and
//! puzzle files hold.

use vstd::prelude::*;

use crate::text::{chars_of, push_char};

verus! {

/// What the command-line argument at a given place asks for.
#[derive(Debug, PartialEq, Eq, Clone, Copy)]
pub enum ArgumentStep {
    /// `--wordlist`, followed by the path of a word list file.
    Wordlist,
    /// `--crossword`, followed by the path of a puzzle file.
    Crossword,
    /// `--wordlist` as the last argument.
    MissingWordlistPath,
    /// `--crossword` as the last argument.
    MissingCrosswordPath,
    /// Anything else.
    InvalidArgument,
}

impl ArgumentStep {
    /// The place of the next flag once the argument at `x` has been read: past the path
    /// that follows `--wordlist` or `--crossword`; none for the other steps, which end
    /// the reading with an error.
    pub fn next_place(&self, x: usize) -> (r: Option<usize>)
        requires
            *self is Wordlist || *self is Crossword ==> x + 2 <= usize::MAX,
        ensures
            r == (if *self is Wordlist || *self is Crossword {
                Some((x + 2) as usize)
            } else {
                None::<usize>
            }),
    {
        match self {
            ArgumentStep::Wordlist | ArgumentStep::Crossword => Some(x + 2),
            _ => None,
        }
    }
}

/// What the argument at `x` of `args` asks for.
pub open spec fn argument_step_of(args: Seq<Seq<char>>, x: int) -> ArgumentStep {
    if args[x] == "--wordlist"@ {
        if x + 1 < args.len() {
            ArgumentStep::Wordlist
        } else {
            ArgumentStep::MissingWordlistPath
        }
    } else if args[x] == "--crossword"@ {
        if x + 1 < args.len() {
            ArgumentStep::Crossword
        } else {
            ArgumentStep::MissingCrosswordPath
        }
    } else {
        ArgumentStep::InvalidArgument
    }
}

/// Flags are read alike wherever they stand: `--wordlist` or `--crossword` followed by
/// another argument asks to read that file, either one as the last argument misses its
/// path, anything else is invalid; and what the argument at a place asks for depends on
/// nothing but that argument and whether another one follows it.
pub proof fn lemma_flags_read_anywhere(args: Seq<Seq<char>>, x: int, other: Seq<Seq<char>>, y: int)
    requires
        0 <= x < args.len(),
        0 <= y < other.len(),
    ensures
        args[x] == "--wordlist"@ && x + 1 < args.len() ==> argument_step_of(args, x) == ArgumentStep::Wordlist,
        args[x] == "--crossword"@ && x + 1 < args.len() ==> argument_step_of(args, x) == ArgumentStep::Crossword,
        args[x] == "--wordlist"@ && x + 1 == args.len() ==> argument_step_of(args, x)
            == ArgumentStep::MissingWordlistPath,
        args[x] == "--crossword"@ && x + 1 == args.len() ==> argument_step_of(args, x)
            == ArgumentStep::MissingCrosswordPath,
        args[x] != "--wordlist"@ && args[x] != "--crossword"@ ==> argument_step_of(args, x)
            == ArgumentStep::InvalidArgument,
        args[x] == other[y] && (x + 1 < args.len()) == (y + 1 < other.len()) ==> argument_step_of(args, x)
            == argument_step_of(other, y),
{
    reveal_strlit("--wordlist");
    reveal_strlit("--crossword");
    assert("--wordlist"@[2] != "--crossword"@[2]);
}

/// Whether two texts are the same.
fn same_text(a: &str, b: &str) -> (r: bool)
    ensures
        r == (a@ == b@),
{
    a.to_owned() == b.to_owned()
}

/// Classifies the argument at `x`. For `Wordlist` and `Crossword` the path is the
/// argument at `x + 1`, and the next flag is at `x + 2`.
pub fn argument_step(args: &Vec<String>, x: usize) -> (r: ArgumentStep)
    requires
        x < args.len(),
    ensures
        r == argument_step_of(args@.map_values(|a: String| a@), x as int),
        r is Wordlist || r is Crossword ==> x + 2 <= args.len(),
{
    let current = args[x].as_str();
    if same_text(current, "--wordlist") {
        if x + 1 < args.len() {
            ArgumentStep::Wordlist
        } else {
            ArgumentStep::MissingWordlistPath
        }
    } else if same_text(current, "--crossword") {
        if x + 1 < args.len() {
            ArgumentStep::Crossword
        } else {
            ArgumentStep::MissingCrosswordPath
        }
    } else {
        ArgumentStep::InvalidArgument
    }
}

/// `text` cut at every line break (`'\n'`): the pieces between them, in order, with an
/// empty piece where two breaks meet or a break starts or ends the text.
pub open spec fn split_lines(text: Seq<char>) -> Seq<Seq<char>>
    decreases text.len(),
{
    if text.len() == 0 {
        seq![Seq::<char>::empty()]
    } else {
        let pieces = split_lines(text.drop_last());
        if text.last() == '\n' {
            pieces.push(Seq::<char>::empty())
        } else {
            pieces.update(pieces.len() - 1, pieces.last().push(text.last()))
        }
    }
}

/// `lines` put back together, a line break between each two of them.
pub open spec fn join_lines(lines: Seq<Seq<char>>) -> Seq<char>
    decreases lines.len(),
{
    if lines.len() == 0 {
        Seq::empty()
    } else if lines.len() == 1 {
        lines[0]
    } else {
        join_lines(lines.drop_last()) + seq!['\n'] + lines.last()
    }
}

/// Cutting a text at its line breaks loses nothing and cuts at every one of them: no
/// piece holds a line break, the pieces put back together with a line break between
/// each two give the text, and there is one piece more than the text has line breaks.
pub proof fn lemma_split_lines_cuts_every_break(text: Seq<char>)
    ensures
        forall|i: int| 0 <= i < split_lines(text).len() ==> !(#[trigger] split_lines(text)[i]).contains('\n'),
        join_lines(split_lines(text)) == text,
        split_lines(text).len() == text.filter(|c: char| c == '\n').len() + 1,
    decreases text.len(),
{
    reveal(Seq::filter);
    if text.len() > 0 {
        let init = text.drop_last();
        let c = text.last();
        let pieces = split_lines(init);
        lemma_split_lines_cuts_every_break(init);
        lemma_split_lines_nonempty(init);
        assert(text =~= init.push(c));
        init.lemma_filter_push(c, |c: char| c == '\n');
        let out = split_lines(text);
        if c == '\n' {
            assert(out.drop_last() =~= pieces);
            assert forall|i: int| 0 <= i < out.len() implies !(#[trigger] out[i]).contains('\n') by {
                if i < pieces.len() {
                    assert(out[i] == pieces[i]);
                }
            }
            assert(join_lines(out) =~= text);
        } else {
            let k = pieces.len() - 1;
            assert forall|i: int| 0 <= i < out.len() implies !(#[trigger] out[i]).contains('\n') by {
                if i < k {
                    assert(out[i] == pieces[i]);
                } else {
                    assert(out[i] == pieces[k].push(c));
                    if out[i].contains('\n') {
                        let j = choose|j: int| 0 <= j < out[i].len() && out[i][j] == '\n';
                        assert(pieces[k][j] == '\n');
                    }
                }
            }
            if pieces.len() == 1 {
                assert(join_lines(out) =~= text);
            } else {
                assert(out.drop_last() =~= pieces.drop_last());
                assert(join_lines(out) =~= text);
            }
        }
    } else {
        assert(join_lines(split_lines(text)) =~= text);
    }
}

/// There is always at least one piece.
proof fn lemma_split_lines_nonempty(text: Seq<char>)
    ensures
        split_lines(text).len() >= 1,
    decreases text.len(),
{
    if text.len() > 0 {
        lemma_split_lines_nonempty(text.drop_last());
    }
}

/// The number of letters before the first line break (all of them, if there is none).
pub open spec fn first_line_length(text: Seq<char>) -> nat
    decreases text.len(),
{
    if text.len() == 0 || text[0] == '\n' {
        0
    } else {
        1 + first_line_length(text.drop_first())
    }
}

/// Whether a letter is a line break.
pub open spec fn is_line_break() -> spec_fn(char) -> bool {
    |c: char| c == '\n'
}

/// Whether a letter is anything but a line break.
pub open spec fn is_not_line_break() -> spec_fn(char) -> bool {
    |c: char| c != '\n'
}

/// The number of line breaks in `text`.
pub open spec fn newline_count(text: Seq<char>) -> int {
    text.filter(is_line_break()).len() as int
}

/// The number of rows a puzzle file counts: one for its first line, then one per line
/// break after it, except that a final line break counts one less and a missing final
/// line break one more.
pub open spec fn counted_rows(text: Seq<char>) -> int {
    let rest = text.skip(first_line_length(text) + 1int);
    if rest.len() > 0 && rest.last() == '\n' {
        newline_count(rest)
    } else {
        1 + newline_count(rest) + 1
    }
}

/// A text without line breaks counts none.
proof fn lemma_no_line_breaks(text: Seq<char>)
    requires
        !text.contains('\n'),
    ensures
        newline_count(text) == 0,
    decreases text.len(),
{
    reveal(Seq::filter);
    if text.len() > 0 {
        assert(text =~= text.drop_last().push(text.last()));
        text.drop_last().lemma_filter_push(text.last(), is_line_break());
        assert(text.last() == text[text.len() - 1]);
        lemma_no_line_breaks(text.drop_last());
    }
}

/// Lines without line breaks, put back together, hold one line break between each two.
proof fn lemma_join_lines_breaks(lines: Seq<Seq<char>>)
    requires
        lines.len() >= 1,
        forall|i: int| 0 <= i < lines.len() ==> !(#[trigger] lines[i]).contains('\n'),
    ensures
        newline_count(join_lines(lines)) == lines.len() - 1,
    decreases lines.len(),
{
    if lines.len() == 1 {
        lemma_no_line_breaks(lines[0]);
    } else {
        let init = lines.drop_last();
        assert forall|i: int| 0 <= i < init.len() implies !(#[trigger] init[i]).contains('\n') by {
            assert(init[i] == lines[i]);
        }
        lemma_join_lines_breaks(init);
        lemma_no_line_breaks(lines.last());
        let head = join_lines(init) + seq!['\n'];
        reveal(Seq::filter);
        join_lines(init).lemma_filter_push('\n', is_line_break());
        assert(head =~= join_lines(init).push('\n'));
        Seq::filter_distributes_over_add(head, lines.last(), is_line_break());
    }
}

/// Lines put back together are the first line, a line break, and the others put back
/// together.
proof fn lemma_join_lines_first(lines: Seq<Seq<char>>)
    requires
        lines.len() >= 2,
    ensures
        join_lines(lines) == lines[0] + seq!['\n'] + join_lines(lines.drop_first()),
    decreases lines.len(),
{
    if lines.len() > 2 {
        lemma_join_lines_first(lines.drop_last());
        let dl = lines.drop_last();
        let df = lines.drop_first();
        assert(dl.drop_first() =~= df.drop_last());
        assert(dl[0] == lines[0]);
        assert(df.last() == lines.last());
        assert(join_lines(lines) == join_lines(dl) + seq!['\n'] + lines.last());
        assert(join_lines(df) == join_lines(df.drop_last()) + seq!['\n'] + df.last());
        assert(join_lines(lines) =~= lines[0] + seq!['\n'] + join_lines(df));
    } else {
        assert(lines.drop_first().len() == 1);
        assert(join_lines(lines.drop_last()) == lines[0]);
        assert(join_lines(lines.drop_first()) == lines[1]);
        assert(join_lines(lines) =~= lines[0] + seq!['\n'] + join_lines(lines.drop_first()));
    }
}

/// The first line of a text is what comes before its first line break.
proof fn lemma_first_line(line: Seq<char>, more: Seq<char>)
    requires
        !line.contains('\n'),
    ensures
        first_line_length(line + seq!['\n'] + more) == line.len(),
    decreases line.len(),
{
    if line.len() > 0 {
        assert(line[0] != '\n');
        assert((line + seq!['\n'] + more).drop_first() =~= line.drop_first() + seq!['\n'] + more);
        assert forall|i: int| 0 <= i < line.drop_first().len() implies line.drop_first()[i] != '\n' by {
            assert(line.drop_first()[i] == line[i + 1]);
        }
        lemma_first_line(line.drop_first(), more);
    } else {
        assert((line + seq!['\n'] + more)[0] == '\n');
    }
}

/// The rows a puzzle file of `rows` counts, read from the command line: a file of `n`
/// lines (at least two, the last one not empty) joined by line breaks counts `n` rows
/// and is as wide as its first line; with a line break after its last line it counts
/// `n - 1` rows. Each line break that is followed by more text adds a row.
pub proof fn lemma_puzzle_file_rows(rows: Seq<Seq<char>>)
    requires
        rows.len() >= 2,
        forall|i: int| 0 <= i < rows.len() ==> !(#[trigger] rows[i]).contains('\n'),
        rows.last().len() > 0,
    ensures
        first_line_length(join_lines(rows)) == rows[0].len(),
        counted_rows(join_lines(rows)) == rows.len(),
        first_line_length(join_lines(rows) + seq!['\n']) == rows[0].len(),
        counted_rows(join_lines(rows) + seq!['\n']) == rows.len() - 1,
{
    let tail = rows.drop_first();
    let r = join_lines(tail);
    assert forall|i: int| 0 <= i < tail.len() implies !(#[trigger] tail[i]).contains('\n') by {
        assert(tail[i] == rows[i + 1]);
    }
    lemma_join_lines_first(rows);
    lemma_join_lines_breaks(tail);
    let t = join_lines(rows);
    let t2 = t + seq!['\n'];
    lemma_first_line(rows[0], r);
    assert(t2 =~= rows[0] + seq!['\n'] + (r + seq!['\n']));
    lemma_first_line(rows[0], r + seq!['\n']);
    let start: int = rows[0].len() + 1int;
    assert(t.skip(start) =~= r);
    assert(t2.skip(start) =~= r + seq!['\n']);
    // The last line ends the text and has no line break.
    assert(r.len() > 0 && r.last() != '\n') by {
        if tail.len() == 1 {
            assert(r == tail[0]);
        } else {
            assert(r == join_lines(tail.drop_last()) + seq!['\n'] + tail.last());
        }
        assert(tail.last() == rows.last());
        assert(rows.last().last() == rows.last()[rows.last().len() - 1]);
    }
    reveal(Seq::filter);
    r.lemma_filter_push('\n', is_line_break());
    assert(r + seq!['\n'] =~= r.push('\n'));
}

/// A puzzle file always counts at least one row.
proof fn lemma_counted_rows_positive(text: Seq<char>)
    ensures
        counted_rows(text) >= 1,
{
    let rest = text.skip(first_line_length(text) + 1int);
    if rest.len() > 0 && rest.last() == '\n' {
        assert(rest =~= rest.drop_last().push('\n'));
        rest.drop_last().lemma_filter_push('\n', is_line_break());
    }
}

/// The settings a command line gives: the words to look for and the puzzle.
pub struct Settings {
    /// The words, one per line of the word list files.
    pub wordlist: Vec<String>,
    /// The puzzle's letters, without line breaks.
    pub crossword: String,
    /// The number of rows, counted over all puzzle files.
    pub crossword_height: usize,
    /// The number of letters per row, counted over all puzzle files.
    pub crossword_width: usize,
    /// The word list files, one after the other.
    pub raw_wordlist: String,
}

/// What a command line left out.
#[derive(Debug, PartialEq, Eq, Clone, Copy)]
pub enum SettingsProblem {
    MissingWordlistAndCrossword,
    MissingWordlist,
    MissingCrossword,
}

impl Settings {
    /// Settings before any file is read.
    pub fn new() -> (s: Self)
        ensures
            s.wordlist@.len() == 0,
            s.crossword@.len() == 0,
            s.crossword_height == 0,
            s.crossword_width == 0,
            s.raw_wordlist@.len() == 0,
    {
        Settings {
            wordlist: Vec::new(),
            crossword: String::new(),
            crossword_height: 0,
            crossword_width: 0,
            raw_wordlist: String::new(),
        }
    }

    /// Adds a word list file: its text is appended to the earlier ones, and the word
    /// list becomes all of it cut at line breaks.
    pub fn add_wordlist(&mut self, contents: &str)
        ensures
            final(self).raw_wordlist@ == old(self).raw_wordlist@ + contents@,
            final(self).wordlist@.map_values(|w: String| w@) == split_lines(final(self).raw_wordlist@),
            final(self).crossword == old(self).crossword,
            final(self).crossword_height == old(self).crossword_height,
            final(self).crossword_width == old(self).crossword_width,
    {
        self.raw_wordlist.append(contents);
        self.wordlist = split_at_newlines(self.raw_wordlist.as_str());
    }

    /// Adds a puzzle file: the width grows by the length of its first line, the height
    /// by the rows it counts, and the puzzle becomes its letters without line breaks.
    pub fn add_crossword(&mut self, contents: &str)
        requires
            contents@.contains('\n'),
            old(self).crossword_width + first_line_length(contents@) <= usize::MAX,
            old(self).crossword_height + counted_rows(contents@) <= usize::MAX,
        ensures
            final(self).crossword_width == old(self).crossword_width + first_line_length(contents@),
            final(self).crossword_height == old(self).crossword_height + counted_rows(contents@),
            final(self).crossword@ == contents@.filter(is_not_line_break()),
            final(self).wordlist == old(self).wordlist,
            final(self).raw_wordlist == old(self).raw_wordlist,
    {
        let chars = chars_of(contents);
        let ghost text = contents@;
        let mut width = self.crossword_width;
        let mut height = self.crossword_height;
        let ghost w0 = width;
        let ghost h0 = height;
        let mut k: usize = 0;
        proof {
            assert(text.skip(0) =~= text);
            lemma_counted_rows_positive(text);
        }
        loop
            invariant_except_break
                height == h0,
            invariant
                chars@ == text,
                text.contains('\n'),
                k <= chars.len(),
                forall|i: int| 0 <= i < k ==> text[i] != '\n',
                width == w0 + k,
                w0 + first_line_length(text) <= usize::MAX,
                h0 + counted_rows(text) <= usize::MAX,
                counted_rows(text) >= 1,
                first_line_length(text) == k + first_line_length(text.skip(k as int)),
            ensures
                k < chars.len(),
                text[k as int] == '\n',
                first_line_length(text) == k,
                width == w0 + k,
                height == h0 + 1,
            decreases chars.len() - k,
        {
            proof {
                let j = choose|j: int| 0 <= j < text.len() && text[j] == '\n';
                assert(j >= k);
                assert(text.skip(k as int)[0] == text[k as int]);
                assert(text.skip(k as int).drop_first() =~= text.skip(k + 1));
            }
            let c = chars[k];
            if c == '\n' {
                height = height + 1;
                break;
            }
            width = width + 1;
            k += 1;
        }
        let ghost start = k + 1;
        let ghost rest = text.skip(start);
        proof {
            assert(rest =~= text.subrange(start, text.len() as int));
        }
        let mut j: usize = k + 1;
        proof {
            assert(text.subrange(start, start) =~= Seq::<char>::empty());
            reveal(Seq::filter);
        }
        loop
            invariant_except_break
                height == h0 + 1 + newline_count(text.subrange(start, j as int)),
                j == chars.len() && j > start ==> text[j - 1] != '\n',
            invariant
                chars@ == text,
                1 <= start <= j <= chars.len(),
                start == first_line_length(text) + 1,
                rest == text.subrange(start, text.len() as int),
                width == w0 + first_line_length(text),
                h0 + counted_rows(text) <= usize::MAX,
            ensures
                width == w0 + first_line_length(text),
                height == h0 + counted_rows(text),
            decreases chars.len() - j,
        {
            let ghost done = text.subrange(start, j as int);
            proof {
                assert(rest =~= done + text.subrange(j as int, text.len() as int));
                Seq::filter_distributes_over_add(
                    done,
                    text.subrange(j as int, text.len() as int),
                    is_line_break(),
                );
            }
            if j == chars.len() {
                proof {
                    assert(done =~= rest);
                }
                height = height + 1;
                break;
            }
            let c = chars[j];
            proof {
                assert(text.subrange(start, j + 1) =~= done.push(c));
                done.lemma_filter_push(c, is_line_break());
                let after = text.subrange(j + 1, text.len() as int);
                assert(rest =~= text.subrange(start, j + 1) + after);
                Seq::filter_distributes_over_add(
                    text.subrange(start, j + 1),
                    after,
                    is_line_break(),
                );
                if j + 1 < chars.len() {
                    assert(rest.last() == after.last());
                    if after.last() == '\n' {
                        assert(after =~= after.drop_last().push('\n'));
                        after.drop_last().lemma_filter_push('\n', is_line_break());
                    }
                }
            }
            if c == '\n' {
                if j + 1 < chars.len() {
                    height = height + 1;
                } else {
                    proof {
                        assert(text.subrange(start, j + 1) =~= rest);
                    }
                    break;
                }
            }
            j += 1;
        }
        let mut crossword = String::new();
        let mut m: usize = 0;
        while m < chars.len()
            invariant
                chars@ == text,
                m <= chars.len(),
                crossword@ == text.take(m as int).filter(is_not_line_break()),
            decreases chars.len() - m,
        {
            let c = chars[m];
            proof {
                assert(text.take(m + 1) =~= text.take(m as int).push(c));
                text.take(m as int).lemma_filter_push(c, is_not_line_break());
            }
            if c != '\n' {
                push_char(&mut crossword, c);
            }
            m += 1;
        }
        proof {
            assert(text.take(chars.len() as int) =~= text);
        }
        self.crossword = crossword;
        self.crossword_width = width;
        self.crossword_height = height;
    }

    /// What the command line left out, if anything.
    pub fn problem(&self) -> (r: Option<SettingsProblem>)
        ensures
            r == if self.wordlist@.len() == 0 && self.crossword@.len() == 0 {
                Some(SettingsProblem::MissingWordlistAndCrossword)
            } else if self.wordlist@.len() == 0 {
                Some(SettingsProblem::MissingWordlist)
            } else if self.crossword@.len() == 0 {
                Some(SettingsProblem::MissingCrossword)
            } else {
                None
            },
    {
        let missing_wordlist = self.wordlist.len() == 0;
        let missing_crossword = self.crossword.as_str().is_empty();
        if missing_wordlist && missing_crossword {
            Some(SettingsProblem::MissingWordlistAndCrossword)
        } else if missing_wordlist {
            Some(SettingsProblem::MissingWordlist)
        } else if missing_crossword {
            Some(SettingsProblem::MissingCrossword)
        } else {
            None
        }
    }
}

/// `text` cut at every line break, as `split_lines` describes.
pub fn split_at_newlines(text: &str) -> (pieces: Vec<String>)
    ensures
        pieces@.map_values(|p: String| p@) == split_lines(text@),
{
    let chars = chars_of(text);
    let mut pieces: Vec<String> = Vec::new();
    let mut current = String::new();
    let mut k: usize = 0;
    while k < chars.len()
        invariant
            chars@ == text@,
            k <= chars.len(),
            pieces@.map_values(|p: String| p@).push(current@) == split_lines(chars@.take(k as int)),
        decreases chars.len() - k,
    {
        let ghost before = pieces@.map_values(|p: String| p@).push(current@);
        let c = chars[k];
        proof {
            assert(chars@.take(k + 1).drop_last() =~= chars@.take(k as int));
            lemma_split_lines_nonempty(chars@.take(k as int));
        }
        if c == '\n' {
            pieces.push(current);
            current = String::new();
            proof {
                assert(pieces@.map_values(|p: String| p@) =~= before);
            }
        } else {
            push_char(&mut current, c);
            proof {
                assert(pieces@.map_values(|p: String| p@).push(current@) =~= before.update(
                    before.len() - 1,
                    before.last().push(c),
                ));
            }
        }
        k += 1;
    }
    pieces.push(current);
    proof {
        assert(chars@.take(chars.len() as int) =~= chars@);
    }
    pieces
}

} // verus!
