use sudoku_solver::board::SudokuBoard;
use sudoku_solver::validate::sorted_unit;

const SOLVED_GRID: &str =
    "534678912672195348198342567859761423426853791713924856961537284287419635345286179";

fn with_cell(text: &str, row: usize, col: usize, value: u8) -> SudokuBoard {
    let mut board = SudokuBoard::from_condensed(text);
    board.board[row][col] = value;
    board
}

#[test]
fn sorted_unit_orders_the_values() {
    assert_eq!(sorted_unit([9, 8, 7, 6, 5, 4, 3, 2, 1]), [1, 2, 3, 4, 5, 6, 7, 8, 9]);
    assert_eq!(sorted_unit([5, 3, 4, 6, 7, 8, 9, 1, 2]), [1, 2, 3, 4, 5, 6, 7, 8, 9]);
    assert_eq!(sorted_unit([1, 2, 3, 4, 5, 6, 7, 8, 9]), [1, 2, 3, 4, 5, 6, 7, 8, 9]);
}

#[test]
fn sorted_unit_keeps_repeated_values() {
    assert_eq!(sorted_unit([3, 0, 3, 200, 0, 1, 3, 9, 1]), [0, 0, 1, 1, 3, 3, 3, 9, 200]);
    assert_eq!(sorted_unit([0; 9]), [0; 9]);
}

#[test]
fn check_accepts_a_solved_board() {
    let board = SudokuBoard::from_condensed(SOLVED_GRID);
    assert!(board.check());
    assert_eq!(board.first_failed_unit(), None);
}

#[test]
fn condensed_text_of_a_solved_board_reads_back_solved() {
    let other =
        "593742681147386259268159347312465798856937124479218536924571863631824975785693412";
    assert!(SudokuBoard::from_condensed(other).check());
    assert!(SudokuBoard::parse_condensed(other).unwrap().check());
}

#[test]
fn check_refuses_a_duplicate_in_a_row() {
    // Row 8 then holds 7 twice; so do column 8 and the last square.
    let board = with_cell(SOLVED_GRID, 8, 8, 7);
    assert!(!board.check());
    assert_eq!(board.first_failed_unit(), Some(8));
}

#[test]
fn check_refuses_a_duplicate_in_the_first_row() {
    let board = with_cell(SOLVED_GRID, 0, 0, 3);
    assert!(!board.check());
    assert_eq!(board.first_failed_unit(), Some(0));
}

#[test]
fn check_names_the_first_unit_that_fails() {
    // Exchanging two whole columns of different squares keeps every row
    // and every column complete, so the first square is the first to fail.
    let mut board = SudokuBoard::from_condensed(SOLVED_GRID);
    for r in 0..9usize {
        let left: u8 = board.board[r][0];
        board.board[r][0] = board.board[r][3];
        board.board[r][3] = left;
    }
    assert!(!board.check());
    assert_eq!(board.first_failed_unit(), Some(18));

    // Nine equal rows: every row is complete, no column is.
    let mut shifted = SudokuBoard::new();
    for r in 0..9usize {
        for c in 0..9usize {
            shifted.board[r][c] = (c as u8) + 1;
        }
    }
    assert!(!shifted.check());
    assert_eq!(shifted.first_failed_unit(), Some(9));
}

#[test]
fn check_names_a_square_when_rows_and_columns_are_complete() {
    // A cyclic latin square: every row and column is complete, no square is.
    let mut board = SudokuBoard::new();
    for r in 0..9usize {
        for c in 0..9usize {
            board.board[r][c] = ((r + c) % 9) as u8 + 1;
        }
    }
    assert!(!board.check());
    assert_eq!(board.first_failed_unit(), Some(18));
}

#[test]
fn check_refuses_an_empty_cell() {
    let board = with_cell(SOLVED_GRID, 4, 4, 0);
    assert!(!board.check());
    assert_eq!(board.first_failed_unit(), Some(4));
    assert!(!SudokuBoard::new().check());
    assert_eq!(SudokuBoard::new().first_failed_unit(), Some(0));
}

#[test]
fn check_refuses_a_value_above_nine() {
    let board = with_cell(SOLVED_GRID, 2, 5, 10);
    assert!(!board.check());
    assert_eq!(board.first_failed_unit(), Some(2));
}
