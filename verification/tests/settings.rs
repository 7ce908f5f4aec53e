use crossword_solver::settings::{argument_step, split_at_newlines, ArgumentStep, Settings, SettingsProblem};

fn strings(items: &[&str]) -> Vec<String> {
    items.iter().map(|s| s.to_string()).collect()
}

#[test]
fn flags_are_classified() {
    assert_eq!(argument_step(&strings(&["--wordlist", "words.txt"]), 0), ArgumentStep::Wordlist);
    assert_eq!(argument_step(&strings(&["--crossword", "grid.txt"]), 0), ArgumentStep::Crossword);
    assert_eq!(argument_step(&strings(&["--wordlist"]), 0), ArgumentStep::MissingWordlistPath);
    assert_eq!(argument_step(&strings(&["x", "--crossword"]), 1), ArgumentStep::MissingCrosswordPath);
    assert_eq!(argument_step(&strings(&["--words", "words.txt"]), 0), ArgumentStep::InvalidArgument);
}

#[test]
fn text_is_cut_at_line_breaks() {
    assert_eq!(split_at_newlines("a\nb"), strings(&["a", "b"]));
    assert_eq!(split_at_newlines(""), strings(&[""]));
    assert_eq!(split_at_newlines("a\n"), strings(&["a", ""]));
    assert_eq!(split_at_newlines("\n\n"), strings(&["", "", ""]));
}

#[test]
fn word_lists_accumulate() {
    let mut settings = Settings::new();
    settings.add_wordlist("cat\n");
    settings.add_wordlist("dog");
    assert_eq!(settings.raw_wordlist, "cat\ndog");
    assert_eq!(settings.wordlist, strings(&["cat", "dog"]));
}

#[test]
fn puzzle_file_is_measured() {
    let mut settings = Settings::new();
    settings.add_crossword("AB\nCD\nEF");
    assert_eq!((settings.crossword_width, settings.crossword_height), (2, 3));
    assert_eq!(settings.crossword, "ABCDEF");
}

#[test]
fn final_line_break_counts_one_row_less() {
    let mut settings = Settings::new();
    settings.add_crossword("ABC\nDEF\n");
    assert_eq!((settings.crossword_width, settings.crossword_height), (3, 1));
    assert_eq!(settings.crossword, "ABCDEF");

    let mut single = Settings::new();
    single.add_crossword("ABC\n");
    assert_eq!((single.crossword_width, single.crossword_height), (3, 2));
}

#[test]
fn puzzle_sizes_accumulate() {
    let mut settings = Settings::new();
    settings.add_crossword("AB\nCD");
    settings.add_crossword("EF\nGH");
    assert_eq!((settings.crossword_width, settings.crossword_height), (4, 4));
    assert_eq!(settings.crossword, "EFGH");
}

#[test]
fn missing_settings_are_reported() {
    let mut settings = Settings::new();
    assert_eq!(settings.problem(), Some(SettingsProblem::MissingWordlistAndCrossword));
    settings.add_wordlist("cat");
    assert_eq!(settings.problem(), Some(SettingsProblem::MissingCrossword));
    settings.add_crossword("AB\nCD");
    assert_eq!(settings.problem(), None);

    let mut only_puzzle = Settings::new();
    only_puzzle.add_crossword("AB\nCD");
    assert_eq!(only_puzzle.problem(), Some(SettingsProblem::MissingWordlist));
}

#[test]
fn a_path_flag_takes_the_next_argument() {
    let args: Vec<String> = ["--wordlist", "words.txt", "--crossword", "grid.txt", "--bad"].iter().map(|a| a.to_string()).collect();
    assert_eq!(argument_step(&args, 0), ArgumentStep::Wordlist);
    assert_eq!(ArgumentStep::Wordlist.next_place(0), Some(2));
    assert_eq!(argument_step(&args, 2), ArgumentStep::Crossword);
    assert_eq!(ArgumentStep::Crossword.next_place(2), Some(4));
    assert_eq!(argument_step(&args, 4), ArgumentStep::InvalidArgument);
    assert_eq!(ArgumentStep::InvalidArgument.next_place(4), None);
    assert_eq!(ArgumentStep::MissingWordlistPath.next_place(4), None);
}
