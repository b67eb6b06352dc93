use sudoku_solver::board::SudokuBoard;

const PUZZLE: &str =
    "53..7....6..195....98....6.8...6...34..8.3..17...2...6.6....28....419..5....8..79";

const SOLVED: &str =
    "534678912672195348198342567859761423426853791713924856961537284287419635345286179";

#[test]
fn new_board_is_empty() {
    let board = SudokuBoard::new();
    assert_eq!(board.board, [[0u8; 9]; 9]);
}

#[test]
fn from_condensed_reads_row_by_row() {
    let board = SudokuBoard::from_condensed(PUZZLE);
    let expected: [[u8; 9]; 9] = [
        [5, 3, 0, 0, 7, 0, 0, 0, 0],
        [6, 0, 0, 1, 9, 5, 0, 0, 0],
        [0, 9, 8, 0, 0, 0, 0, 6, 0],
        [8, 0, 0, 0, 6, 0, 0, 0, 3],
        [4, 0, 0, 8, 0, 3, 0, 0, 1],
        [7, 0, 0, 0, 2, 0, 0, 0, 6],
        [0, 6, 0, 0, 0, 0, 2, 8, 0],
        [0, 0, 0, 4, 1, 9, 0, 0, 5],
        [0, 0, 0, 0, 8, 0, 0, 7, 9],
    ];
    assert_eq!(board.board, expected);
}

#[test]
fn from_condensed_takes_zero_for_an_empty_cell() {
    let dotted = SudokuBoard::from_condensed(PUZZLE);
    let zeroed = SudokuBoard::from_condensed(&PUZZLE.replace('.', "0"));
    assert_eq!(dotted.board, zeroed.board);
}

#[test]
fn from_condensed_of_all_dots_is_the_empty_board() {
    let board = SudokuBoard::from_condensed(&".".repeat(81));
    assert_eq!(board.board, SudokuBoard::new().board);
}

#[test]
fn parse_condensed_accepts_condensed_text() {
    let parsed = SudokuBoard::parse_condensed(PUZZLE);
    assert!(parsed.is_some());
    assert_eq!(parsed.unwrap().board, SudokuBoard::from_condensed(PUZZLE).board);
}

#[test]
fn parse_condensed_refuses_a_short_text() {
    assert!(SudokuBoard::parse_condensed(&PUZZLE[..80]).is_none());
    assert!(SudokuBoard::parse_condensed("").is_none());
}

#[test]
fn parse_condensed_refuses_a_long_text() {
    let long = format!("{}.", PUZZLE);
    assert!(SudokuBoard::parse_condensed(&long).is_none());
}

#[test]
fn parse_condensed_refuses_other_characters() {
    let with_letter = format!("x{}", &PUZZLE[1..]);
    assert!(SudokuBoard::parse_condensed(&with_letter).is_none());
    let with_space = format!("{} ", &PUZZLE[..80]);
    assert!(SudokuBoard::parse_condensed(&with_space).is_none());
    let with_wide_digit = format!("{}\u{0663}", &PUZZLE[..80]);
    assert!(SudokuBoard::parse_condensed(&with_wide_digit).is_none());
}

#[test]
fn get_row_gives_the_row_left_to_right() {
    let board = SudokuBoard::from_condensed(SOLVED);
    assert_eq!(board.get_row(0), [5, 3, 4, 6, 7, 8, 9, 1, 2]);
    assert_eq!(board.get_row(4), [4, 2, 6, 8, 5, 3, 7, 9, 1]);
    assert_eq!(board.get_row(8), [3, 4, 5, 2, 8, 6, 1, 7, 9]);
}

#[test]
fn get_col_gives_the_column_top_to_bottom() {
    let board = SudokuBoard::from_condensed(SOLVED);
    assert_eq!(board.get_col(0), [5, 6, 1, 8, 4, 7, 9, 2, 3]);
    assert_eq!(board.get_col(4), [7, 9, 4, 6, 5, 2, 3, 1, 8]);
    assert_eq!(board.get_col(8), [2, 8, 7, 3, 1, 6, 4, 5, 9]);
}

#[test]
fn get_square_scans_the_square_row_by_row() {
    let board = SudokuBoard::from_condensed(SOLVED);
    assert_eq!(board.get_square(0, 0), [5, 3, 4, 6, 7, 2, 1, 9, 8]);
    assert_eq!(board.get_square(4, 4), [7, 6, 1, 8, 5, 3, 9, 2, 4]);
    assert_eq!(board.get_square(8, 8), [2, 8, 4, 6, 3, 5, 1, 7, 9]);
    assert_eq!(board.get_square(6, 2), [9, 6, 1, 2, 8, 7, 3, 4, 5]);
}

#[test]
fn get_square_is_the_same_for_every_cell_of_a_square() {
    let board = SudokuBoard::from_condensed(PUZZLE);
    for r in 0..9usize {
        for c in 0..9usize {
            assert_eq!(board.get_square(r, c), board.get_square(3 * (r / 3), 3 * (c / 3)));
        }
    }
}

#[test]
fn get_square_holds_the_cells_of_its_region() {
    let board = SudokuBoard::from_condensed(PUZZLE);
    for r in 0..9usize {
        for c in 0..9usize {
            let mut region: Vec<u8> = Vec::new();
            for i in 3 * (r / 3)..3 * (r / 3) + 3 {
                for j in 3 * (c / 3)..3 * (c / 3) + 3 {
                    region.push(board.board[i][j]);
                }
            }
            assert_eq!(board.get_square(r, c).to_vec(), region);
        }
    }
}

#[test]
fn all_squares_go_left_to_right_then_down() {
    let board = SudokuBoard::from_condensed(SOLVED);
    let squares = board.all_squares();
    assert_eq!(squares.len(), 9);
    for s in 0..9usize {
        assert_eq!(squares[s], board.get_square(3 * (s / 3), 3 * (s % 3)));
    }
    assert_eq!(squares[1], [6, 7, 8, 1, 9, 5, 3, 4, 2]);
    assert_eq!(squares[3], [8, 5, 9, 4, 2, 6, 7, 1, 3]);
}

#[test]
fn clone_is_an_independent_copy() {
    let board = SudokuBoard::from_condensed(PUZZLE);
    let mut copy = board.clone();
    assert_eq!(copy.board, board.board);
    copy.board[0][2] = 4;
    assert_eq!(board.board[0][2], 0);
    assert_eq!(copy.board[0][2], 4);
}

fn lines_of(text: &str) -> Vec<String> {
    let mut lines: Vec<String> = Vec::new();
    for r in 0..9usize {
        lines.push(String::from(&text[9 * r..9 * r + 9]));
    }
    lines
}

#[test]
fn from_lines_reads_one_row_from_each_line() {
    let board = SudokuBoard::from_lines(&lines_of(SOLVED));
    assert_eq!(board.board, SudokuBoard::from_condensed(SOLVED).board);
    assert_eq!(board.board[3], [8, 5, 9, 7, 6, 1, 4, 2, 3]);
}

#[test]
fn from_lines_takes_zero_for_an_empty_cell() {
    let zeroed = PUZZLE.replace('.', "0");
    let board = SudokuBoard::from_lines(&lines_of(&zeroed));
    assert_eq!(board.board, SudokuBoard::from_condensed(PUZZLE).board);
}

#[test]
fn parse_lines_accepts_line_text() {
    let parsed = SudokuBoard::parse_lines(&lines_of(SOLVED));
    assert_eq!(parsed.unwrap().board, SudokuBoard::from_condensed(SOLVED).board);
}

#[test]
fn parse_lines_refuses_dots() {
    assert!(SudokuBoard::parse_lines(&lines_of(PUZZLE)).is_none());
}

#[test]
fn parse_lines_refuses_a_wrong_number_of_lines() {
    let mut lines = lines_of(SOLVED);
    lines.push(String::from("123456789"));
    assert!(SudokuBoard::parse_lines(&lines).is_none());
    lines.truncate(8);
    assert!(SudokuBoard::parse_lines(&lines).is_none());
    assert!(SudokuBoard::parse_lines(&Vec::new()).is_none());
}

#[test]
fn parse_lines_refuses_a_line_of_wrong_length() {
    let mut lines = lines_of(SOLVED);
    lines[4].push('1');
    assert!(SudokuBoard::parse_lines(&lines).is_none());
    let mut lines = lines_of(SOLVED);
    lines[8].pop();
    assert!(SudokuBoard::parse_lines(&lines).is_none());
}
