use tictactoe::{Board, Cell, Symbol};

fn board_with(size: usize, marks: &[(usize, Symbol)]) -> Board {
    let mut b = Board::new(size);
    for &(p, s) in marks {
        assert!(b.make_move(p, s));
    }
    b
}

#[test]
fn new_board_is_empty() {
    let b = Board::new(3);
    assert_eq!(b.size, 3);
    assert_eq!(b.cells.len(), 9);
    assert!(b.cells.iter().all(|&c| c == Cell::Empty));
    let b5 = Board::new(5);
    assert_eq!(b5.cells.len(), 25);
    assert_eq!(b5.get_empty_cells(), (0..25).collect::<Vec<usize>>());
}

#[test]
fn make_move_on_empty_cell() {
    let mut b = Board::new(3);
    assert!(b.make_move(4, Symbol::X));
    assert_eq!(b.cells[4], Cell::Occupied(Symbol::X));
}

#[test]
fn make_move_never_overwrites() {
    let mut b = Board::new(3);
    assert!(b.make_move(4, Symbol::X));
    assert!(!b.make_move(4, Symbol::O));
    assert_eq!(b.cells[4], Cell::Occupied(Symbol::X));
    assert!(!b.make_move(4, Symbol::X));
}

#[test]
fn make_move_out_of_range() {
    let mut b = Board::new(3);
    assert!(!b.make_move(9, Symbol::X));
    assert!(!b.make_move(100, Symbol::O));
    assert_eq!(b.get_empty_cells().len(), 9);
}

#[test]
fn empty_cells_ascending() {
    let b = board_with(3, &[(0, Symbol::X), (4, Symbol::O), (8, Symbol::X)]);
    assert_eq!(b.get_empty_cells(), vec![1, 2, 3, 5, 6, 7]);
}

#[test]
fn full_iff_no_empty_cells() {
    let mut b = Board::new(3);
    assert!(!b.is_full());
    let syms = [Symbol::X, Symbol::O];
    for p in 0..8 {
        assert!(b.make_move(p, syms[p % 2]));
        assert!(!b.is_full());
        assert!(!b.get_empty_cells().is_empty());
    }
    assert!(b.make_move(8, Symbol::X));
    assert!(b.is_full());
    assert!(b.get_empty_cells().is_empty());
}

#[test]
fn filling_every_empty_cell_fills_board() {
    let mut b = board_with(5, &[(3, Symbol::X), (12, Symbol::O)]);
    let empties = b.get_empty_cells();
    for (k, &p) in empties.iter().enumerate() {
        let s = if k % 2 == 0 { Symbol::O } else { Symbol::X };
        assert!(b.make_move(p, s));
    }
    assert!(b.get_empty_cells().is_empty());
    assert!(b.is_full());
}

#[test]
fn empty_board_has_no_winner() {
    assert_eq!(Board::new(3).check_winner(), None);
    assert_eq!(Board::new(5).check_winner(), None);
}

#[test]
fn top_row_of_x_wins() {
    let b = board_with(3, &[(0, Symbol::X), (1, Symbol::X), (2, Symbol::X)]);
    assert_eq!(b.check_winner(), Some(Symbol::X));
}

#[test]
fn full_board_without_line_is_draw() {
    // X O X
    // X O O
    // O X X
    let b = board_with(
        3,
        &[
            (0, Symbol::X),
            (1, Symbol::O),
            (2, Symbol::X),
            (3, Symbol::X),
            (4, Symbol::O),
            (5, Symbol::O),
            (6, Symbol::O),
            (7, Symbol::X),
            (8, Symbol::X),
        ],
    );
    assert_eq!(b.check_winner(), None);
    assert!(b.is_full());
}

#[test]
fn main_diagonal_of_four_wins_on_large_board() {
    let b = board_with(5, &[(0, Symbol::O), (6, Symbol::O), (12, Symbol::O), (18, Symbol::O)]);
    assert_eq!(b.check_winner(), Some(Symbol::O));
    assert!(!b.is_full());
}

#[test]
fn three_in_a_row_is_not_enough_on_large_board() {
    let b = board_with(5, &[(0, Symbol::X), (1, Symbol::X), (2, Symbol::X)]);
    assert_eq!(b.check_winner(), None);
}

#[test]
fn run_of_four_inside_a_row_wins() {
    let b = board_with(5, &[(6, Symbol::X), (7, Symbol::X), (8, Symbol::X), (9, Symbol::X)]);
    assert_eq!(b.check_winner(), Some(Symbol::X));
}

#[test]
fn broken_run_does_not_win() {
    let b = board_with(
        5,
        &[(0, Symbol::X), (1, Symbol::X), (2, Symbol::O), (3, Symbol::X), (4, Symbol::X)],
    );
    assert_eq!(b.check_winner(), None);
}

#[test]
fn column_wins() {
    let b = board_with(3, &[(1, Symbol::O), (4, Symbol::O), (7, Symbol::O)]);
    assert_eq!(b.check_winner(), Some(Symbol::O));
    let b5 = board_with(5, &[(7, Symbol::X), (12, Symbol::X), (17, Symbol::X), (22, Symbol::X)]);
    assert_eq!(b5.check_winner(), Some(Symbol::X));
}

#[test]
fn anti_diagonal_wins() {
    let b = board_with(3, &[(2, Symbol::X), (4, Symbol::X), (6, Symbol::X)]);
    assert_eq!(b.check_winner(), Some(Symbol::X));
    let b5 = board_with(5, &[(8, Symbol::O), (12, Symbol::O), (16, Symbol::O), (20, Symbol::O)]);
    assert_eq!(b5.check_winner(), Some(Symbol::O));
}

#[test]
fn offset_diagonals_win_on_large_board() {
    let b = board_with(5, &[(1, Symbol::X), (7, Symbol::X), (13, Symbol::X), (19, Symbol::X)]);
    assert_eq!(b.check_winner(), Some(Symbol::X));
    let b2 = board_with(5, &[(5, Symbol::O), (9, Symbol::O), (13, Symbol::O), (17, Symbol::O)]);
    assert_eq!(b2.check_winner(), Some(Symbol::O));
}

#[test]
fn other_offset_diagonals_do_not_count() {
    // start 5, step 6: 5, 11, 17, 23 is not among the scanned lines
    let b = board_with(5, &[(5, Symbol::X), (11, Symbol::X), (17, Symbol::X), (23, Symbol::X)]);
    assert_eq!(b.check_winner(), None);
}

#[test]
fn first_line_in_scan_order_decides() {
    // row 0 is scanned before row 1
    let b = board_with(
        3,
        &[
            (3, Symbol::O),
            (4, Symbol::O),
            (5, Symbol::O),
            (0, Symbol::X),
            (1, Symbol::X),
            (2, Symbol::X),
        ],
    );
    assert_eq!(b.check_winner(), Some(Symbol::X));
    // column 0 is scanned before row 3
    let b2 = board_with(
        5,
        &[
            (16, Symbol::X),
            (17, Symbol::X),
            (18, Symbol::X),
            (19, Symbol::X),
            (0, Symbol::O),
            (5, Symbol::O),
            (10, Symbol::O),
            (15, Symbol::O),
        ],
    );
    assert_eq!(b2.check_winner(), Some(Symbol::O));
}

#[test]
fn symbol_other() {
    assert_eq!(Symbol::X.other(), Symbol::O);
    assert_eq!(Symbol::O.other(), Symbol::X);
}
