use sudoku_solver::board::SudokuBoard;
use sudoku_solver::solver::{
    candidates, first_empty_from, solve, SudokuSolver, BACKTRACKING_SOLVER,
};

const BENCHMARK: &str =
    "..3..2.8.14......9.68.593.7..24.5...............2.85..9.457.86.6......75.8.6..4..";

const BENCHMARK_SOLVED: &str =
    "593742681147386259268159347312465798856937124479218536924571863631824975785693412";

const PUZZLE: &str =
    "53..7....6..195....98....6.8...6...34..8.3..17...2...6.6....28....419..5....8..79";

const SOLVED: &str =
    "534678912672195348198342567859761423426853791713924856961537284287419635345286179";

fn keeps_clues(puzzle: &SudokuBoard, full: &SudokuBoard) -> bool {
    for r in 0..9usize {
        for c in 0..9usize {
            if puzzle.board[r][c] != 0 && puzzle.board[r][c] != full.board[r][c] {
                return false;
            }
        }
    }
    true
}

#[test]
fn solve_benchmark_puzzle() {
    let board = SudokuBoard::from_condensed(BENCHMARK);
    let solution = solve(&board).expect("the puzzle has a solution");
    assert!(solution.check());
    assert!(keeps_clues(&board, &solution));
    assert_eq!(solution.board, SudokuBoard::from_condensed(BENCHMARK_SOLVED).board);
}

#[test]
fn solve_finds_the_only_solution() {
    let board = SudokuBoard::from_condensed(PUZZLE);
    let solution = solve(&board).expect("the puzzle has a solution");
    assert!(solution.check());
    assert!(keeps_clues(&board, &solution));
    assert_eq!(solution.board, SudokuBoard::from_condensed(SOLVED).board);
}

#[test]
fn solve_leaves_its_argument_alone() {
    let board = SudokuBoard::from_condensed(PUZZLE);
    let before = board.board;
    let _ = solve(&board);
    assert_eq!(board.board, before);
}

#[test]
fn solve_returns_a_solved_board_unchanged() {
    let board = SudokuBoard::from_condensed(SOLVED);
    let solution = solve(&board).expect("a full board");
    assert_eq!(solution.board, board.board);
}

#[test]
fn solve_returns_a_full_board_unchanged_even_if_not_solved() {
    let mut board = SudokuBoard::from_condensed(SOLVED);
    board.board[8][8] = 7;
    let solution = solve(&board).expect("a full board");
    assert_eq!(solution.board, board.board);
    assert!(!solution.check());
}

#[test]
fn solve_fills_the_last_cells() {
    let mut text = String::from(&SOLVED[..79]);
    text.push_str("..");
    let board = SudokuBoard::from_condensed(&text);
    let solution = solve(&board).expect("two cells are left");
    assert_eq!(solution.board, SudokuBoard::from_condensed(SOLVED).board);
}

#[test]
fn solve_finds_no_solution_where_a_cell_has_no_candidate() {
    // The last cell of row 0 sees 1 to 8 in its row and 9 in its column.
    let board = SudokuBoard::from_condensed(
        "12345678.........9...............................................................",
    );
    assert!(solve(&board).is_none());
}

#[test]
fn solve_finds_no_solution_after_searching() {
    // As the puzzle above, with its second clue changed from 3 to 5.
    let board = SudokuBoard::from_condensed(
        "55..7....6..195....98....6.8...6...34..8.3..17...2...6.6....28....419..5....8..79",
    );
    assert!(solve(&board).is_none());
}

#[test]
fn solve_completes_the_empty_board() {
    let board = SudokuBoard::new();
    let solution = solve(&board).expect("the empty board has completions");
    assert!(solution.check());
}

#[test]
fn solve_returns_the_last_of_several_completions() {
    // Read row by row, no completion of the empty board comes after this one.
    let last =
        "987654321654321987321987654896745213745213896213896745579468132468132579132579468";
    let solution = solve(&SudokuBoard::new()).expect("the empty board has completions");
    assert_eq!(solution.board, SudokuBoard::from_condensed(last).board);
}

#[test]
fn solve_keeps_clues_that_break_the_rules() {
    // The last row holds 7 twice. The search fills the one empty cell by the
    // rules and leaves the clues as they are.
    let board = SudokuBoard::from_condensed(
        ".34678912672195348198342567859761423426853791713924856961537284287419635345286177",
    );
    let solution = solve(&board).expect("the empty cell has a candidate");
    assert!(keeps_clues(&board, &solution));
    assert_eq!(solution.board[0][0], 5);
    assert!(!solution.check());
    assert_eq!(solution.first_failed_unit(), Some(8));
}

#[test]
fn solve_ends_quickly_on_puzzles_with_one_solution() {
    let start = std::time::Instant::now();
    for text in [BENCHMARK, PUZZLE] {
        let solution = solve(&SudokuBoard::from_condensed(text));
        assert!(solution.is_some());
    }
    assert!(start.elapsed().as_secs() < 5);
}

#[test]
fn backtracking_solver_is_solve() {
    let board = SudokuBoard::from_condensed(PUZZLE);
    let solution = BACKTRACKING_SOLVER.solve(&board).expect("the puzzle has a solution");
    assert_eq!(solution.board, solve(&board).unwrap().board);
    let none = SudokuBoard::from_condensed(
        "12345678.........9...............................................................",
    );
    assert!(BACKTRACKING_SOLVER.solve(&none).is_none());
}

#[test]
fn first_empty_from_scans_row_by_row() {
    let board = SudokuBoard::from_condensed(PUZZLE);
    assert_eq!(first_empty_from(&board, (0, 0)), Some((0, 2)));
    assert_eq!(first_empty_from(&board, (0, 2)), Some((0, 2)));
    assert_eq!(first_empty_from(&board, (0, 4)), Some((0, 5)));
    assert_eq!(first_empty_from(&board, (0, 8)), Some((0, 8)));
    assert_eq!(first_empty_from(&board, (1, 0)), Some((1, 1)));
    assert_eq!(first_empty_from(&board, (8, 7)), None);
}

#[test]
fn first_empty_from_passes_over_earlier_cells() {
    let mut board = SudokuBoard::from_condensed(SOLVED);
    board.board[2][3] = 0;
    assert_eq!(first_empty_from(&board, (0, 0)), Some((2, 3)));
    assert_eq!(first_empty_from(&board, (2, 3)), Some((2, 3)));
    assert_eq!(first_empty_from(&board, (2, 4)), None);
    assert_eq!(first_empty_from(&SudokuBoard::from_condensed(SOLVED), (0, 0)), None);
}

#[test]
fn candidates_are_the_unused_digits_in_ascending_order() {
    let board = SudokuBoard::from_condensed(PUZZLE);
    // Row 0 holds 5, 3, 7; column 2 holds 8; the square holds 5, 3, 6, 9, 8.
    assert_eq!(candidates(&board, 0, 2), vec![1, 2, 4]);
    // Row 4 holds 4, 8, 3, 1; column 4 holds 7, 9, 6, 2, 1, 8; the square 6, 8, 3, 2.
    assert_eq!(candidates(&board, 4, 4), vec![5]);
    assert_eq!(candidates(&SudokuBoard::new(), 3, 3), vec![1, 2, 3, 4, 5, 6, 7, 8, 9]);
}

#[test]
fn candidates_may_be_none() {
    let board = SudokuBoard::from_condensed(
        "12345678.........9...............................................................",
    );
    assert_eq!(candidates(&board, 0, 8), Vec::<u8>::new());
}

#[test]
fn candidates_pass_over_values_above_nine() {
    let mut board = SudokuBoard::new();
    board.board[0][0] = 10;
    board.board[0][1] = 255;
    board.board[0][2] = 9;
    assert_eq!(candidates(&board, 0, 8), vec![1, 2, 3, 4, 5, 6, 7, 8]);
}
