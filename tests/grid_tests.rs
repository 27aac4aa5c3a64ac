use crossword::grid::{Cell, Grid, GridError};
use crossword::puzzle::PuzzleError;

fn sample() -> Grid {
    Grid(vec![
        vec![Cell::Black, Cell::Letter('é'), Cell::Empty],
        vec![Cell::Letter('a'), Cell::Empty, Cell::Letter('Z')],
        vec![Cell::Empty, Cell::Letter('q'), Cell::Black],
    ])
}

#[test]
fn new_grid_is_square_and_empty() {
    let grid = Grid::new(4);
    assert_eq!(grid.len(), 4);
    assert_eq!(grid.is_square(), Ok(()));
    for row in grid.rows_iter() {
        assert_eq!(row.len(), 4);
        assert!(row.iter().all(|c| *c == Cell::Empty));
    }
}

#[test]
fn text_format_writes_glyphs() {
    assert_eq!(sample().to_string(), "▩ é ▢ \na ▢ Z \n▢ q ▩ \n");
}

#[test]
fn text_round_trip() {
    let grid = sample();
    let bytes = grid.to_string().into_bytes();
    assert_eq!(Grid::from_bytes(&bytes), Ok(grid));
}

#[test]
fn from_bytes_skips_blank_lines() {
    let bytes = "▩ a\n\n▢   B \r\n\n".as_bytes().to_vec();
    let expected = Grid(vec![
        vec![Cell::Black, Cell::Letter('a')],
        vec![Cell::Empty, Cell::Letter('B')],
    ]);
    assert_eq!(Grid::from_bytes(&bytes), Ok(expected));
}

#[test]
fn from_bytes_rejects_unknown_token() {
    let bytes = "▩ 1 ▢\n".as_bytes().to_vec();
    assert_eq!(Grid::from_bytes(&bytes), Err(GridError::InvalidPuzzleFormat));
    let bytes = "▩ ab ▢\n".as_bytes().to_vec();
    assert_eq!(Grid::from_bytes(&bytes), Err(GridError::InvalidPuzzleFormat));
}

#[test]
fn from_bytes_rejects_non_utf8() {
    let bytes = vec![b'a', b' ', 0xff, b'\n'];
    match Grid::from_bytes(&bytes) {
        Err(GridError::NonUtf8(e)) => assert_eq!(e.valid_up_to(), 2),
        other => panic!("expected a UTF-8 error, got {:?}", other),
    }
}

#[test]
fn transpose_swaps_axes() {
    let grid = sample();
    let t = grid.transpose();
    for y in 0..3 {
        for x in 0..3 {
            assert_eq!(t.get(x, y), grid.get(y, x));
        }
    }
    assert_eq!(t.transpose(), grid);
}

#[test]
fn rotate_180_twice_is_identity() {
    let grid = sample();
    let once = grid.rotate_180();
    assert_eq!(*once.get(0, 0), Cell::Black);
    assert_eq!(*once.get(1, 0), Cell::Letter('q'));
    assert_eq!(once.rotate_180(), grid);
}

#[test]
fn symmetric_grid_stays_symmetric_after_rotation() {
    let grid = sample();
    assert_eq!(grid.is_symmetric(), Ok(()));
    assert_eq!(grid.rotate_180().is_symmetric(), Ok(()));
    let lopsided = Grid(vec![
        vec![Cell::Black, Cell::Empty],
        vec![Cell::Empty, Cell::Empty],
    ]);
    assert_eq!(lopsided.is_symmetric(), Err(PuzzleError::NotSymmetric));
    assert_eq!(lopsided.rotate_180().is_symmetric(), Err(PuzzleError::NotSymmetric));
}

#[test]
fn is_square_rejects_ragged_rows() {
    let grid = Grid(vec![vec![Cell::Empty, Cell::Empty], vec![Cell::Empty]]);
    assert_eq!(grid.is_square(), Err(PuzzleError::NotSymmetric));
}

#[test]
fn black_share_boundary() {
    // 4 of 25 is exactly 16 percent; 5 of 25 is 20 percent.
    let mut grid = Grid::new(5);
    for (x, y) in [(0, 0), (4, 0), (0, 4), (4, 4)] {
        grid.set(x, y, Cell::Black);
    }
    assert_eq!(grid.acceptable_black_square_count(), Ok(()));
    grid.set(2, 2, Cell::Black);
    assert_eq!(
        grid.acceptable_black_square_count(),
        Err(PuzzleError::TooManyBlackSquares(16))
    );
}

#[test]
fn black_share_truncates() {
    // 17 of 100 cells is 17 percent; 16 of 100 passes.
    let mut grid = Grid::new(10);
    for i in 0..16 {
        grid.set(i % 10, i / 10, Cell::Black);
    }
    assert_eq!(grid.acceptable_black_square_count(), Ok(()));
    grid.set(9, 9, Cell::Black);
    assert_eq!(
        grid.acceptable_black_square_count(),
        Err(PuzzleError::TooManyBlackSquares(16))
    );
}

#[test]
fn spacing_rule() {
    let e = Cell::Empty;
    let b = Cell::Black;
    assert!(Grid::ok_dist_to_black_or_edge(&[]));
    assert!(Grid::ok_dist_to_black_or_edge(&[e, e, e]));
    assert!(Grid::ok_dist_to_black_or_edge(&[e, e, e, e]));
    assert!(!Grid::ok_dist_to_black_or_edge(&[e]));
    assert!(!Grid::ok_dist_to_black_or_edge(&[e, e]));
    assert!(Grid::ok_dist_to_black_or_edge(&[b, e]));
    assert!(!Grid::ok_dist_to_black_or_edge(&[e, b, e, e]));
    assert!(!Grid::ok_dist_to_black_or_edge(&[e, e, b]));
    assert!(Grid::ok_dist_to_black_or_edge(&[e, e, e, b]));
    assert!(Grid::ok_dist_to_black_or_edge(&[e, Cell::Letter('a'), e, e, b, e]));
}

#[test]
fn get_mut_changes_one_cell() {
    let mut grid = Grid::new(3);
    *grid.get_mut(1, 2) = Cell::Letter('k');
    assert_eq!(*grid.get(1, 2), Cell::Letter('k'));
    assert_eq!(grid.get_row(2), &vec![Cell::Empty, Cell::Letter('k'), Cell::Empty]);
}
