use crossword_solver::{
    CrosswordDimensions, CrosswordError, CrosswordPosition, CrosswordPuzzleSolver, CrosswordWordData,
    WordDirection,
};

const PUZZLE: &str = "WVFXZYZWGXDEPARAGUAYLSVMEREOIUJUBJEAWGNIDBYSGYNNUECPYAMALUBIINHPERUONORRNTGDBCOCLASUAIUWTKHIEOUSDNIEOIVPXYCQLAABLIZARBFUYINEACFAKUCKXGALEUZENEVZ";

#[test]
fn create_crossword_solver() {
    let crossword = String::from("WVFXZYZWGXDEPARAGUAYLSVMEREOIUJUBJEAWGNIDBYSGYNNUECPYAMALUBIINHPERUONORRNTGDBCOCLASUAIUWTKHIEOUSDNIEOIVPXYCQLAABLIZARBFUYINEACFAKUCKXGALEUZENEVZ");
    let solver = CrosswordPuzzleSolver::new(crossword, CrosswordDimensions { width: 12, height: 12 });

    assert!(solver.is_ok());
}

#[test]
fn square_puzzle_equals_normal_puzzle() {
    let crossword = String::from("WVFXZYZWGXDEPARAGUAYLSVMEREOIUJUBJEAWGNIDBYSGYNNUECPYAMALUBIINHPERUONORRNTGDBCOCLASUAIUWTKHIEOUSDNIEOIVPXYCQLAABLIZARBFUYINEACFAKUCKXGALEUZENEVZ");
    let solver_normal = CrosswordPuzzleSolver::new(crossword.clone(), CrosswordDimensions { width: 12, height: 12 });
    assert!(solver_normal.is_ok());

    let solver_square = CrosswordPuzzleSolver::square_puzzle(crossword.clone());
    assert!(solver_square.is_ok());

    assert_eq!(solver_normal.unwrap(), solver_square.unwrap());
}

#[test]
fn search_for_a_word() {
    let crossword = String::from("WVFXZYZWGXDEPARAGUAYLSVMEREOIUJUBJEAWGNIDBYSGYNNUECPYAMALUBIINHPERUONORRNTGDBCOCLASUAIUWTKHIEOUSDNIEOIVPXYCQLAABLIZARBFUYINEACFAKUCKXGALEUZENEVZ");
    let solver = CrosswordPuzzleSolver::new(crossword, CrosswordDimensions { width: 12, height: 12 });
    assert!(solver.is_ok());

    let mut solver = solver.unwrap();
    let first_word = String::from("PARAGUAY");
    assert!(solver.find_word(&first_word).is_ok());
    assert!(solver.find_word(&first_word).unwrap().is_some());
    assert_eq!(
        solver.find_word(&first_word).unwrap().unwrap(),
        CrosswordWordData { direction: WordDirection::Right, position: CrosswordPosition { x: 0, y: 10 } }
    );

    let second_word = String::from("PERU");

    assert!(solver.find_word(&second_word).is_ok());
    assert!(solver.find_word(&second_word).unwrap().is_some());
    assert_eq!(
        solver.find_word(&second_word).unwrap().unwrap(),
        CrosswordWordData { direction: WordDirection::Right, position: CrosswordPosition { x: 3, y: 6 } }
    );
}

#[test]
fn test_read_file() {}

#[test]
fn rows_are_cut_by_width() {
    let solver = CrosswordPuzzleSolver::new(String::from("ABCDEF"), CrosswordDimensions { width: 3, height: 2 }).unwrap();
    // Rows keep the order of the text.
    assert_eq!(solver.crossword, vec![vec!['A', 'B', 'C'], vec!['D', 'E', 'F']]);
    assert_eq!(solver.crossword[1][2], 'F');
    assert_eq!(solver.crossword[0][2], 'C');
}

#[test]
fn wrong_length_is_refused() {
    let result = CrosswordPuzzleSolver::new(String::from("ABCDE"), CrosswordDimensions { width: 3, height: 2 });
    match result {
        Err(CrosswordError::InvalidInput(message)) => {
            assert_eq!(message, "crossword actual data length does not match dimensions implied length")
        }
        Ok(_) => panic!("a wrong length was accepted"),
    }
}

#[test]
fn length_is_counted_in_bytes() {
    // "é" takes two bytes: four letters make five bytes.
    let result = CrosswordPuzzleSolver::new(String::from("éABC"), CrosswordDimensions { width: 2, height: 2 });
    assert!(result.is_err());
    let solver = CrosswordPuzzleSolver::new(String::from("éABC"), CrosswordDimensions { width: 5, height: 1 }).unwrap();
    assert_eq!(solver.crossword, vec![vec!['é', 'A', 'B', 'C']]);
}

#[test]
fn non_square_is_refused() {
    match CrosswordPuzzleSolver::square_puzzle(String::from("ABCDEFGH")) {
        Err(CrosswordError::InvalidInput(message)) => assert_eq!(message, "crossword data is not square"),
        Ok(_) => panic!("a non-square puzzle was accepted"),
    }
}

#[test]
fn square_puzzle_of_nine_letters() {
    let solver = CrosswordPuzzleSolver::square_puzzle(String::from("ABCDEFGHI")).unwrap();
    assert_eq!(solver.crossword, vec![vec!['A', 'B', 'C'], vec!['D', 'E', 'F'], vec!['G', 'H', 'I']]);
}

#[test]
fn square_is_taken_over_bytes() {
    // Two letters of two bytes each: four bytes, a square of side two.
    let solver = CrosswordPuzzleSolver::square_puzzle(String::from("éé")).unwrap();
    assert_eq!(solver.crossword, vec![vec!['é', 'é']]);
}

#[test]
fn missing_word_is_none() {
    let mut solver = CrosswordPuzzleSolver::new(String::from(PUZZLE), CrosswordDimensions { width: 12, height: 12 }).unwrap();
    assert_eq!(solver.find_word("QQQ").unwrap(), None);
    assert_eq!(solver.find_word("QQQ").unwrap(), None);
}

#[test]
fn first_direction_wins() {
    // "ABA" reads Right and Left from its ends; the first cell in reading order is (0, 0).
    let mut solver = CrosswordPuzzleSolver::new(String::from("ABA"), CrosswordDimensions { width: 3, height: 1 }).unwrap();
    assert_eq!(
        solver.find_word("ABA").unwrap(),
        Some(CrosswordWordData { direction: WordDirection::Right, position: CrosswordPosition { x: 0, y: 0 } })
    );
    // A single letter matches in the first direction tried, Up.
    assert_eq!(
        solver.find_word("B").unwrap(),
        Some(CrosswordWordData { direction: WordDirection::Up, position: CrosswordPosition { x: 1, y: 0 } })
    );
}

#[test]
fn words_in_every_direction() {
    // Searches count rows from the bottom; the text's first row is the top one:
    // y = 2: A B C
    // y = 1: D E F
    // y = 0: G H I
    let mut solver = CrosswordPuzzleSolver::new(String::from("ABCDEFGHI"), CrosswordDimensions { width: 3, height: 3 }).unwrap();
    let expect = |x: isize, y: isize, direction: WordDirection| {
        Some(CrosswordWordData { direction, position: CrosswordPosition { x, y } })
    };
    assert_eq!(solver.find_word("GDA").unwrap(), expect(0, 0, WordDirection::Up));
    assert_eq!(solver.find_word("GEC").unwrap(), expect(0, 0, WordDirection::UpRight));
    assert_eq!(solver.find_word("ABC").unwrap(), expect(0, 2, WordDirection::Right));
    assert_eq!(solver.find_word("AEI").unwrap(), expect(0, 2, WordDirection::DownRight));
    assert_eq!(solver.find_word("ADG").unwrap(), expect(0, 2, WordDirection::Down));
    assert_eq!(solver.find_word("CEG").unwrap(), expect(2, 2, WordDirection::DownLeft));
    assert_eq!(solver.find_word("CBA").unwrap(), expect(2, 2, WordDirection::Left));
    assert_eq!(solver.find_word("IEA").unwrap(), expect(2, 0, WordDirection::UpLeft));
    assert_eq!(solver.find_word("ABD").unwrap(), None);
}

#[test]
fn relative_steps() {
    assert_eq!(WordDirection::Up.get_relative_x_y(), (0, 1));
    assert_eq!(WordDirection::UpRight.get_relative_x_y(), (1, 1));
    assert_eq!(WordDirection::Right.get_relative_x_y(), (1, 0));
    assert_eq!(WordDirection::DownRight.get_relative_x_y(), (1, -1));
    assert_eq!(WordDirection::Down.get_relative_x_y(), (0, -1));
    assert_eq!(WordDirection::DownLeft.get_relative_x_y(), (-1, -1));
    assert_eq!(WordDirection::Left.get_relative_x_y(), (-1, 0));
    assert_eq!(WordDirection::UpLeft.get_relative_x_y(), (-1, 1));
}

#[test]
fn directions_in_search_order() {
    let all: Vec<WordDirection> = (0..8).map(WordDirection::from_index).collect();
    assert_eq!(
        all,
        vec![
            WordDirection::Up,
            WordDirection::UpRight,
            WordDirection::Right,
            WordDirection::DownRight,
            WordDirection::Down,
            WordDirection::DownLeft,
            WordDirection::Left,
            WordDirection::UpLeft,
        ]
    );
}

#[test]
fn moving_from_a_position() {
    let start = CrosswordPosition { x: 5, y: 5 };
    assert_eq!(start.get_position_from_direction(&WordDirection::UpLeft, 3), CrosswordPosition { x: 2, y: 8 });
    assert_eq!(start.get_position_from_direction(&WordDirection::DownRight, 2), CrosswordPosition { x: 7, y: 3 });
    assert_eq!(start.get_position_from_direction(&WordDirection::Down, 0), start);
    for n in 0..4usize {
        for index in 0..8 {
            let direction = WordDirection::from_index(index);
            let (dx, dy) = direction.get_relative_x_y();
            let moved = start.get_position_from_direction(&direction, n);
            assert_eq!(moved, CrosswordPosition { x: 5 + dx as isize * n as isize, y: 5 + dy as isize * n as isize });
        }
    }
}

#[test]
fn adding_positions() {
    let sum = CrosswordPosition { x: 2, y: -3 } + CrosswordPosition { x: 4, y: 7 };
    assert_eq!(sum, CrosswordPosition { x: 6, y: 4 });
}

#[test]
fn printing_without_words() {
    let mut solver = CrosswordPuzzleSolver::new(String::from("ABCD"), CrosswordDimensions { width: 2, height: 2 }).unwrap();
    // The last row of the text is printed first.
    assert_eq!(solver.pretty_print(None), "\tC D \n\tA B \n");
}

#[test]
fn printing_colours_found_words() {
    let mut solver = CrosswordPuzzleSolver::new(String::from("ABCD"), CrosswordDimensions { width: 2, height: 2 }).unwrap();
    let output = solver.pretty_print(Some(vec!["AB", "ZZ"]));
    let yellow = "\x1B[38:5:226m";
    let reset = "\x1B[38:5:244m";
    assert_eq!(output, format!("\tC D \n\t{yellow}A{reset} {yellow}B{reset} \n"));
    // The search was remembered: a later print still colours the word.
    assert_eq!(solver.pretty_print(None), output);
}

#[test]
fn overlapping_words_take_the_colour_of_the_last_in_dictionary_order() {
    let yellow = "\x1B[38:5:226m";
    let blue = "\x1B[38:5:39m";
    let reset = "\x1B[38:5:244m";
    // "AC" runs Down from A to C, and comes after "AB", whatever the search order.
    let expected = format!("\t{blue}C{reset} D \n\t{blue}A{reset} {yellow}B{reset} \n");
    let mut solver = CrosswordPuzzleSolver::new(String::from("ABCD"), CrosswordDimensions { width: 2, height: 2 }).unwrap();
    assert_eq!(solver.pretty_print(Some(vec!["AB", "AC"])), expected);
    let mut solver = CrosswordPuzzleSolver::new(String::from("ABCD"), CrosswordDimensions { width: 2, height: 2 }).unwrap();
    assert_eq!(solver.pretty_print(Some(vec!["AC", "AB"])), expected);
}

#[test]
fn search_order_does_not_matter_for_equality() {
    let mut one = CrosswordPuzzleSolver::new(String::from(PUZZLE), CrosswordDimensions { width: 12, height: 12 }).unwrap();
    let mut other = CrosswordPuzzleSolver::new(String::from(PUZZLE), CrosswordDimensions { width: 12, height: 12 }).unwrap();
    for word in ["PERU", "QQQ", "PARAGUAY", "A"] {
        let _ = one.find_word(word);
    }
    for word in ["A", "PARAGUAY", "PERU", "QQQ", "PERU"] {
        let _ = other.find_word(word);
    }
    assert_eq!(one, other);
}

#[test]
fn searching_twice_changes_nothing() {
    let mut once = CrosswordPuzzleSolver::new(String::from(PUZZLE), CrosswordDimensions { width: 12, height: 12 }).unwrap();
    let mut twice = CrosswordPuzzleSolver::new(String::from(PUZZLE), CrosswordDimensions { width: 12, height: 12 }).unwrap();
    let first = once.find_word("PERU").unwrap();
    assert_eq!(twice.find_word("PERU").unwrap(), first);
    assert_eq!(twice.find_word("PERU").unwrap(), first);
    assert_eq!(once, twice);
}

#[test]
fn answers_do_not_depend_on_earlier_searches() {
    let mut fresh = CrosswordPuzzleSolver::new(String::from(PUZZLE), CrosswordDimensions { width: 12, height: 12 }).unwrap();
    let mut used = CrosswordPuzzleSolver::new(String::from(PUZZLE), CrosswordDimensions { width: 12, height: 12 }).unwrap();
    for word in ["PERU", "QQQ", "W", "PARAGUAY", "ZZZZ"] {
        let _ = used.find_word(word);
    }
    assert_eq!(used.find_word("PARAGUAY").unwrap(), fresh.find_word("PARAGUAY").unwrap());
    assert_eq!(used.find_word("PERU").unwrap(), fresh.find_word("PERU").unwrap());
    assert_eq!(used.crossword, fresh.crossword);
}

#[test]
fn printing_searches_like_find_word() {
    let words = vec!["PERU", "QQQ", "PARAGUAY", "PERU"];
    let mut printed = CrosswordPuzzleSolver::new(String::from(PUZZLE), CrosswordDimensions { width: 12, height: 12 }).unwrap();
    let mut searched = CrosswordPuzzleSolver::new(String::from(PUZZLE), CrosswordDimensions { width: 12, height: 12 }).unwrap();
    let _ = printed.pretty_print(Some(words.clone()));
    for word in words {
        let _ = searched.find_word(word);
    }
    assert_eq!(printed, searched);
}
