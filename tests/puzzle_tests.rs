use crossword::dictionary::{Dictionary, SparseWord};
use crossword::grid::{Cell, Grid};
use crossword::puzzle::{Puzzle, PuzzleError};
use crossword::MAX_WORD_LEN;

fn dictionary_of(words: &[&str]) -> Dictionary {
    let mut dictionary = Dictionary::new(MAX_WORD_LEN);
    for word in words {
        dictionary.insert(word.to_string());
    }
    dictionary
}

fn letters(rows: &[&str]) -> Grid {
    Grid(
        rows.iter()
            .map(|row| {
                row.chars()
                    .map(|c| match c {
                        '#' => Cell::Black,
                        '_' => Cell::Empty,
                        l => Cell::Letter(l),
                    })
                    .collect()
            })
            .collect(),
    )
}

#[test]
fn valid_empty_grid() {
    let empty = Puzzle::new("x".to_string(), 10);
    println!("{}", empty.cells().to_string());
    assert_eq!(empty.validate_base(), Ok(()));
}

#[test]
fn valid_random_grid() {
    let mut random = Puzzle::new("x".to_string(), 14);
    random.random_black();
    println!("{}", random.cells().to_string());
    assert_eq!(random.validate_base(), Ok(()));
}

#[test]
fn valid_black_placement() {
    let cells = Grid(vec![
        vec![
            Cell::Black,
            Cell::Empty,
            Cell::Empty,
            Cell::Empty,
            Cell::Empty,
        ],
        vec![
            Cell::Empty,
            Cell::Empty,
            Cell::Empty,
            Cell::Empty,
            Cell::Empty,
        ],
        vec![
            Cell::Empty,
            Cell::Empty,
            Cell::Empty,
            Cell::Empty,
            Cell::Empty,
        ],
        vec![
            Cell::Empty,
            Cell::Empty,
            Cell::Empty,
            Cell::Empty,
            Cell::Empty,
        ],
        vec![
            Cell::Empty,
            Cell::Empty,
            Cell::Letter('B'),
            Cell::Letter('A'),
            Cell::Empty,
        ],
    ]);
    let puzzle = Puzzle::from_grid("x".to_string(), cells);
    assert_eq!(puzzle.valid_black_placement((0, 1)), true);
    assert_eq!(puzzle.valid_black_placement((1, 1)), false);
    assert_eq!(puzzle.valid_black_placement((2, 2)), false);
    assert_eq!(puzzle.valid_black_placement((3, 4)), false);
    assert_eq!(puzzle.valid_black_placement((4, 4)), true);
}

#[test]
fn valid_words() {
    let cells = Grid(vec![
        vec![Cell::Letter('S'), Cell::Letter('I'), Cell::Letter('T')],
        vec![Cell::Letter('A'), Cell::Letter('T'), Cell::Letter('E')],
        vec![Cell::Letter('P'), Cell::Letter('A'), Cell::Letter('N')],
    ]);
    let puzzle = Puzzle::from_grid("x".to_string(), cells);
    let dictionary = dictionary_of(&["sit", "ate", "pan", "sap", "ita", "ten"]);
    assert_eq!(puzzle.validate_words(&dictionary), Ok(()));
}

#[test]
fn words_too_short() {
    let cells = Grid(vec![
        vec![Cell::Letter('S'), Cell::Letter('I'), Cell::Letter('T')],
        vec![Cell::Letter('A'), Cell::Black, Cell::Letter('E')],
        vec![Cell::Letter('P'), Cell::Letter('U'), Cell::Letter('N')],
    ]);
    let puzzle = Puzzle::from_grid("x".to_string(), cells);
    let dictionary = dictionary_of(&["sit", "pun", "sap", "ten"]);
    assert_eq!(
        puzzle.validate_words(&dictionary),
        Err(PuzzleError::WordTooShort("A".to_string()))
    );
}

#[test]
fn words_iter() {
    let cells = Grid(vec![
        vec![Cell::Letter('S'), Cell::Letter('I'), Cell::Letter('T')],
        vec![Cell::Letter('A'), Cell::Letter('C'), Cell::Letter('E')],
        vec![Cell::Letter('P'), Cell::Letter('E'), Cell::Letter('N')],
    ]);
    let puzzle = Puzzle::from_grid("x".to_string(), cells);

    let across_words: Vec<String> = puzzle
        .words_across_iter()
        .iter()
        .map(|x| Cell::as_string(x))
        .collect();
    let down_words: Vec<String> = puzzle
        .words_down_iter()
        .iter()
        .map(|x| Cell::as_string(x))
        .collect();

    assert_eq!(vec!["SIT", "ACE", "PEN"], across_words);
    assert_eq!(vec!["SAP", "ICE", "TEN"], down_words);
}

#[test]
fn get_words() {
    let cells = Grid(vec![
        vec![
            Cell::Black,
            Cell::Letter('S'),
            Cell::Letter('I'),
            Cell::Letter('T'),
            Cell::Black,
        ],
        vec![
            Cell::Letter('F'),
            Cell::Letter('A'),
            Cell::Letter('C'),
            Cell::Letter('E'),
            Cell::Letter('S'),
        ],
        vec![
            Cell::Letter('F'),
            Cell::Letter('A'),
            Cell::Black,
            Cell::Letter('E'),
            Cell::Letter('S'),
        ],
        vec![
            Cell::Letter('F'),
            Cell::Letter('A'),
            Cell::Letter('C'),
            Cell::Letter('E'),
            Cell::Letter('S'),
        ],
        vec![
            Cell::Black,
            Cell::Letter('P'),
            Cell::Letter('E'),
            Cell::Letter('N'),
            Cell::Black,
        ],
    ]);
    let puzzle = Puzzle::from_grid("x".to_string(), cells);

    assert_eq!(
        puzzle.get_across_word(1),
        Some(SparseWord::new(vec![Some('S'), Some('I'), Some('T')]))
    );
    assert_eq!(
        puzzle.get_across_word(10),
        Some(SparseWord::new(vec![Some('F'), Some('A')]))
    );
    assert_eq!(
        puzzle.get_across_word(13),
        Some(SparseWord::new(vec![Some('E'), Some('S')]))
    );

    assert_eq!(
        puzzle.get_down_word(1),
        Some(SparseWord::new(vec![
            Some('S'),
            Some('A'),
            Some('A'),
            Some('A'),
            Some('P')
        ]))
    );
    assert_eq!(
        puzzle.get_down_word(3),
        Some(SparseWord::new(vec![
            Some('T'),
            Some('E'),
            Some('E'),
            Some('E'),
            Some('N')
        ]))
    );
    assert_eq!(
        puzzle.get_down_word(2),
        Some(SparseWord::new(vec![Some('I'), Some('C')]))
    );
    assert_eq!(
        puzzle.get_down_word(17),
        Some(SparseWord::new(vec![Some('C'), Some('E')]))
    );

    assert_eq!(puzzle.get_across_word(0), None);
    assert_eq!(puzzle.get_down_word(0), None);
}

#[test]
fn across_word_with_empty_cells_keeps_placeholders() {
    let puzzle = Puzzle::from_grid("x".to_string(), letters(&["A_T", "___", "#__"]));
    assert_eq!(
        puzzle.get_across_word(0),
        Some(SparseWord::new(vec![Some('A'), None, Some('T')]))
    );
    assert_eq!(puzzle.get_across_word(6), None);
    assert_eq!(
        puzzle.get_across_word(7),
        Some(SparseWord::new(vec![None, None]))
    );
    assert_eq!(
        puzzle.get_down_word(0),
        Some(SparseWord::new(vec![Some('A'), None]))
    );
}

#[test]
fn as_string_uses_placeholder_for_empty() {
    assert_eq!(
        Cell::as_string(&[Cell::Letter('A'), Cell::Empty, Cell::Letter('t')]),
        "A_t"
    );
}

#[test]
fn all_words_across_then_down() {
    let puzzle = Puzzle::from_grid("x".to_string(), letters(&["SIT", "A#E", "PUN"]));
    let words: Vec<String> = puzzle
        .all_words_iter()
        .iter()
        .map(|x| Cell::as_string(x))
        .collect();
    assert_eq!(words, vec!["SIT", "A", "E", "PUN", "SAP", "I", "U", "TEN"]);
}

#[test]
fn validate_base_rejects_non_square() {
    let puzzle = Puzzle::from_grid("x".to_string(), letters(&["___", "____", "___"]));
    assert_eq!(puzzle.validate_base(), Err(PuzzleError::NotSymmetric));
}

#[test]
fn validate_base_rejects_asymmetric_blacks() {
    let puzzle = Puzzle::from_grid(
        "x".to_string(),
        letters(&["#____", "_____", "_____", "_____", "_____"]),
    );
    assert_eq!(puzzle.validate_base(), Err(PuzzleError::NotSymmetric));
}

#[test]
fn validate_base_rejects_too_many_blacks() {
    // 2 of 9 cells: 22 percent.
    let puzzle = Puzzle::from_grid("x".to_string(), letters(&["#__", "___", "__#"]));
    assert_eq!(
        puzzle.validate_base(),
        Err(PuzzleError::TooManyBlackSquares(16))
    );
}

#[test]
fn validate_base_rejects_short_word() {
    let puzzle = Puzzle::from_grid(
        "x".to_string(),
        letters(&["_#___", "_____", "_____", "_____", "___#_"]),
    );
    assert_eq!(
        puzzle.validate_base(),
        Err(PuzzleError::WordTooShort("_".to_string()))
    );
}

#[test]
fn validate_base_accepts_boundary_share() {
    // 4 of 25 cells is exactly 16 percent, and every run is at least 3 long.
    let puzzle = Puzzle::from_grid(
        "x".to_string(),
        letters(&["_____", "#___#", "_____", "#___#", "_____"]),
    );
    assert_eq!(puzzle.cells().acceptable_black_square_count(), Ok(()));
}

#[test]
fn validate_words_reports_first_repeat() {
    let puzzle = Puzzle::from_grid("x".to_string(), letters(&["TOT", "OHO", "TOT"]));
    let dictionary = dictionary_of(&["tot", "oho"]);
    assert_eq!(
        puzzle.validate_words(&dictionary),
        Err(PuzzleError::RepeatWord("TOT".to_string()))
    );
}

#[test]
fn validate_words_reports_all_made_up_words() {
    let puzzle = Puzzle::from_grid("x".to_string(), letters(&["SIT", "ACE", "PEN"]));
    let dictionary = dictionary_of(&["sit", "ace", "sap", "ten"]);
    assert_eq!(
        puzzle.validate_words(&dictionary),
        Err(PuzzleError::MadeUpWord("PEN, ICE".to_string()))
    );
}

#[test]
fn validate_words_lowercases_before_lookup() {
    let puzzle = Puzzle::from_grid("x".to_string(), letters(&["SIT", "ACE", "PEN"]));
    let dictionary = dictionary_of(&["SIT", "ace", "pen", "sap", "ice", "ten"]);
    assert_eq!(
        puzzle.validate_words(&dictionary),
        Err(PuzzleError::MadeUpWord("SIT".to_string()))
    );
}

#[test]
fn random_black_leaves_small_grids_empty() {
    for size in 1..5 {
        let mut puzzle = Puzzle::new("x".to_string(), size);
        assert!(puzzle.random_black());
        for row in puzzle.cells().rows_iter() {
            assert!(row.iter().all(|c| *c == Cell::Empty));
        }
    }
}

#[test]
fn random_black_with_fixed_flips() {
    let mut puzzle = Puzzle::new("x".to_string(), 6);
    // 6 * 6 * 16 / 100 = 5 blacks allowed, so one placement of four cells.
    assert!(puzzle.random_black_with(&[true]));
    let text = puzzle.cells().to_string();
    assert_eq!(
        text,
        "▩ ▢ ▢ ▢ ▢ ▩ \n▢ ▢ ▢ ▢ ▢ ▢ \n▢ ▢ ▢ ▢ ▢ ▢ \n▢ ▢ ▢ ▢ ▢ ▢ \n▢ ▢ ▢ ▢ ▢ ▢ \n▩ ▢ ▢ ▢ ▢ ▩ \n"
    );
}

#[test]
fn random_black_with_retries_after_tails() {
    let mut puzzle = Puzzle::new("x".to_string(), 6);
    // Only the corner can take a black square; tails, then heads on the next scan.
    assert!(puzzle.random_black_with(&[false, true]));
    assert_eq!(*puzzle.cells().get(0, 0), Cell::Black);
    assert_eq!(*puzzle.cells().get(5, 0), Cell::Black);
    assert_eq!(*puzzle.cells().get(5, 5), Cell::Black);
    assert_eq!(*puzzle.cells().get(0, 5), Cell::Black);
    assert_eq!(*puzzle.cells().get(1, 0), Cell::Empty);
}

#[test]
fn random_black_with_runs_out_of_flips() {
    let mut puzzle = Puzzle::new("x".to_string(), 6);
    assert!(!puzzle.random_black_with(&[false]));
    assert_eq!(puzzle.cells().to_string(), Puzzle::new("x".to_string(), 6).cells().to_string());
}

#[test]
fn random_letters_fills_only_empty_cells() {
    let mut puzzle = Puzzle::from_grid("x".to_string(), letters(&["#_x", "___", "_a#"]));
    puzzle.random_letters();
    let grid = puzzle.cells();
    assert_eq!(*grid.get(0, 0), Cell::Black);
    assert_eq!(*grid.get(2, 0), Cell::Letter('x'));
    assert_eq!(*grid.get(1, 2), Cell::Letter('a'));
    assert_eq!(*grid.get(2, 2), Cell::Black);
    for (x, y) in [(1, 0), (0, 1), (1, 1), (2, 1), (0, 2)] {
        match grid.get(x, y) {
            Cell::Letter(c) => assert!(('A'..='Z').contains(c)),
            other => panic!("expected a letter, got {:?}", other),
        }
    }
}

#[test]
fn down_word_starting_past_the_edge_is_none() {
    let puzzle = Puzzle::from_grid("x".to_string(), letters(&["SIT", "ACE", "PEN"]));
    assert_eq!(puzzle.get_down_word(10), None);
    assert_eq!(
        puzzle.get_down_word(4),
        Some(SparseWord::new(vec![Some('C'), Some('E')]))
    );
}

#[test]
fn random_letters_fills_ragged_rows() {
    let mut puzzle = Puzzle::from_grid("x".to_string(), letters(&["_#", "__#_", "a__"]));
    puzzle.random_letters();
    let grid = puzzle.cells();
    assert_eq!(*grid.get(1, 0), Cell::Black);
    assert_eq!(*grid.get(2, 1), Cell::Black);
    assert_eq!(*grid.get(0, 2), Cell::Letter('a'));
    for (x, y) in [(0, 0), (0, 1), (1, 1), (3, 1), (1, 2), (2, 2)] {
        match grid.get(x, y) {
            Cell::Letter(c) => assert!(('A'..='Z').contains(c)),
            other => panic!("expected a letter, got {:?}", other),
        }
    }
    let across: Vec<String> = puzzle
        .words_across_iter()
        .iter()
        .map(|x| Cell::as_string(x))
        .collect();
    assert_eq!(across.len(), 4);
}
