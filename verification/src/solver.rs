//! Exhaustive depth-first search for a completion of a board, over an
//! explicit stack of pending boards.

use crate::board::{in_grid, SudokuBoard};
use crate::completion::precedes;
use vstd::prelude::*;

verus! {

/// A pending board of the search, with the cell from which the scan for
/// its next empty cell resumes.
type Pending = ((usize, usize), SudokuBoard);

/// The first empty cell at or after `origin`, scanning row by row, or `None`
/// where every cell from `origin` on is filled.
pub fn first_empty_from(board: &SudokuBoard, origin: (usize, usize)) -> (found: Option<
    (usize, usize),
>)
    requires
        origin.0 < 9,
        origin.1 < 9,
    ensures
        match found {
            Some(point) => {
                &&& point.0 < 9
                &&& point.1 < 9
                &&& 9 * origin.0 + origin.1 <= 9 * point.0 + point.1
                &&& board.cell(point.0 as int, point.1 as int) == 0
                &&& board.filled_between(9 * origin.0 + origin.1, 9 * point.0 + point.1)
            },
            None => board.filled_between(9 * origin.0 + origin.1, 81),
        },
{
    let start: usize = origin.0 * 9 + origin.1;
    let mut index: usize = start;
    while index < 81
        invariant
            start == 9 * origin.0 + origin.1,
            start <= index <= 81,
            board.filled_between(start as int, index as int),
        decreases 81 - index,
    {
        let point: (usize, usize) = (index / 9, index % 9);
        if board.board[point.0][point.1] == 0 {
            assert(board.flat(index as int) == 0);
            assert(9 * point.0 + point.1 == index);
            return Some(point);
        }
        assert(board.flat(index as int) != 0);
        index += 1;
    }
    None
}

/// The candidates for cell `(row, col)` in ascending order: the digits from
/// 1 to 9 without every value present in the cell's row, column or square.
pub fn candidates(board: &SudokuBoard, row: usize, col: usize) -> (digits: Vec<u8>)
    requires
        row < 9,
        col < 9,
    ensures
        forall|d: u8| digits@.contains(d) <==> board.is_candidate(row as int, col as int, d),
        forall|i: int, j: int| 0 <= i < j < digits.len() ==> digits[i] < digits[j],
        digits.len() <= 9,
{
    let in_row = board.get_row(row);
    let in_col = board.get_col(col);
    let in_square = board.get_square(row, col);
    let mut digits: Vec<u8> = Vec::new();
    let mut d: u8 = 1;
    while d <= 9
        invariant
            1 <= d <= 10,
            in_row@ == board.row(row as int),
            in_col@ == board.column(col as int),
            in_square@ == board.square(row as int, col as int),
            digits.len() < d,
            forall|x: u8|
                digits@.contains(x) <==> x < d && board.is_candidate(row as int, col as int, x),
            forall|i: int| 0 <= i < digits.len() ==> #[trigger] digits[i] < d,
            forall|i: int, j: int| 0 <= i < j < digits.len() ==> digits[i] < digits[j],
        decreases 10 - d,
    {
        let mut unused = true;
        for k in 0..9usize
            invariant
                unused <==> forall|m: int|
                    0 <= m < k ==> in_row[m] != d && in_col[m] != d && in_square[m] != d,
        {
            if in_row[k] == d || in_col[k] == d || in_square[k] == d {
                unused = false;
            }
        }
        let ghost before = digits@;
        if unused {
            digits.push(d);
        }
        proof {
            assert(unused <==> board.is_candidate(row as int, col as int, d)) by {
                if !unused {
                    let m = choose|m: int|
                        0 <= m < 9 && !(in_row[m] != d && in_col[m] != d && in_square[m] != d);
                    assert(in_row@[m] == in_row[m] && in_col@[m] == in_col[m] && in_square@[m]
                        == in_square[m]);
                }
            }
            assert forall|x: u8|
                digits@.contains(x) <==> x < d + 1 && board.is_candidate(
                    row as int,
                    col as int,
                    x,
                ) by {
                if unused {
                    assert(digits@ == before.push(d));
                    assert(digits@[before.len() as int] == d);
                    if before.contains(x) {
                        let i = choose|i: int| 0 <= i < before.len() && before[i] == x;
                        assert(digits@[i] == x);
                    }
                }
            }
        }
        d += 1;
    }
    digits
}

/// Searches for a completion of `initial`, depth first.
///
/// Returns a completion where one exists and `None` where none does. Of
/// several completions it returns the last in the order of the cell values
/// read row by row. Where some solved board keeps the filled cells of
/// `initial`, the completion returned is solved; a completion of a puzzle is
/// always solved. A board without an empty cell is returned as it is.
///
/// The stack starts with `initial`. Each step takes the board on top and
/// looks for its first empty cell, from the cell where the board's parent
/// found one. A board without an empty cell is the result. Otherwise each
/// candidate for the empty cell, in ascending order, puts a copy of the board
/// with the candidate in that cell on the stack.
pub fn solve(initial: &SudokuBoard) -> (solution: Option<SudokuBoard>)
    ensures
        solution is Some <==> initial.has_completion(),
        solution matches Some(full) ==> initial.completed_by(full),
        solution matches Some(full) ==> forall|other: SudokuBoard| #[trigger]
            initial.completed_by(other) && other != full ==> precedes(other, full),
        initial.is_solvable() ==> (solution matches Some(full) && full.is_solved()),
        initial.is_puzzle() ==> (solution matches Some(full) ==> full.is_solved()),
        initial.is_full() ==> solution == Some(*initial),
{
    let mut frontier: Vec<Pending> = Vec::new();
    frontier.push(((0, 0), initial.clone()));
    proof {
        lemma_search_starts(*initial, frontier@);
    }
    while frontier.len() > 0
        invariant
            searching(*initial, frontier@),
        decreases frontier_bound(frontier@),
    {
        let ghost popped_from = frontier@;
        let (origin, board) = frontier.pop().unwrap();
        let ghost rest = frontier@;
        proof {
            assert(rest =~= popped_from.drop_last());
            assert(is_pending(*initial, popped_from[popped_from.len() - 1]));
        }
        match first_empty_from(&board, origin) {
            None => {
                proof {
                    lemma_search_found(*initial, popped_from, origin, board);
                    lemma_found_laws(*initial, board);
                }
                return Some(board);
            },
            Some(point) => {
                let digits = candidates(&board, point.0, point.1);
                for i in 0..digits.len()
                    invariant
                        point.0 < 9,
                        point.1 < 9,
                        branched(rest, board, point, digits@, i as int, frontier@),
                {
                    let ghost before = frontier@;
                    let mut next = board.clone();
                    next.board[point.0][point.1] = digits[i];
                    frontier.push((point, next));
                    proof {
                        let d = digits[i as int];
                        assert(board.placed(point.0 as int, point.1 as int, d, next));
                        assert(frontier@ == before.push((point, next)));
                    }
                }
                proof {
                    lemma_search_branches(
                        *initial,
                        popped_from,
                        origin,
                        board,
                        point,
                        digits@,
                        frontier@,
                    );
                }
            },
        }
    }
    proof {
        lemma_exhausted_laws(*initial, frontier@);
    }
    None
}

/// A search strategy: a way to find a completion of a board.
pub trait SudokuSolver {
    /// A completion of `board`, or `None` where it has none.
    fn solve(&self, board: &SudokuBoard) -> (solution: Option<SudokuBoard>)
        ensures
            solution is Some <==> board.has_completion(),
            solution matches Some(full) ==> board.completed_by(full),
    ;
}

/// The strategy of `solve`: depth-first search with backtracking.
pub struct BacktrackingSolver;

impl SudokuSolver for BacktrackingSolver {
    fn solve(&self, board: &SudokuBoard) -> (solution: Option<SudokuBoard>) {
        self::solve(board)
    }
}

/// The default strategy.
pub const BACKTRACKING_SOLVER: BacktrackingSolver = BacktrackingSolver;

// What holds of the stack during the search.

/// A pending board of the search for a completion of `initial`: it extends
/// `initial`, and every cell before its resume cell is filled.
spec fn is_pending(initial: SudokuBoard, entry: Pending) -> bool {
    &&& entry.0.0 < 9
    &&& entry.0.1 < 9
    &&& initial.extended_by(entry.1)
    &&& entry.1.filled_between(0, 9 * entry.0.0 + entry.0.1)
}

/// Some pending board has each of its filled cells as `full` has it.
spec fn covers(frontier: Seq<Pending>, full: SudokuBoard) -> bool {
    exists|i: int| 0 <= i < frontier.len() && (#[trigger] frontier[i]).1.clues_kept_in(full)
}

/// `lower` and `upper` are filled alike up to a cell that both fill, `lower`
/// with the smaller value.
spec fn parts_below(lower: SudokuBoard, upper: SudokuBoard) -> bool {
    exists|k: int|
        0 <= k < 81 && #[trigger] lower.flat(k) < upper.flat(k) && lower.same_before(upper, k)
            && lower.filled_between(0, k + 1)
}

/// The stack between two steps of the search for a completion of `initial`:
/// its boards are pending, every completion of `initial` keeps the filled
/// cells of one of them, and each board parts below those above it.
spec fn searching(initial: SudokuBoard, frontier: Seq<Pending>) -> bool {
    &&& forall|i: int| 0 <= i < frontier.len() ==> is_pending(initial, #[trigger] frontier[i])
    &&& forall|full: SudokuBoard| #[trigger] initial.completed_by(full) ==> covers(frontier, full)
    &&& forall|i: int, j: int|
        #![trigger frontier[i], frontier[j]]
        0 <= i < j < frontier.len() ==> parts_below(frontier[i].1, frontier[j].1)
}

/// The stack after `pushed` candidates for cell `point` of `board` were
/// placed: `rest`, and above it one copy of `board` for each of the first
/// `pushed` of `digits`, with that digit in the cell.
spec fn branched(
    rest: Seq<Pending>,
    board: SudokuBoard,
    point: (usize, usize),
    digits: Seq<u8>,
    pushed: int,
    frontier: Seq<Pending>,
) -> bool {
    &&& 0 <= pushed <= digits.len()
    &&& frontier.len() == rest.len() + pushed
    &&& forall|k: int| 0 <= k < rest.len() ==> #[trigger] frontier[k] == rest[k]
    &&& forall|k: int|
        rest.len() <= k < frontier.len() ==> (#[trigger] frontier[k]).0 == point && board.placed(
            point.0 as int,
            point.1 as int,
            digits[k - rest.len()],
            frontier[k].1,
        )
}

/// How many of the first `n` cells, counting row by row, are empty.
spec fn empty_among(board: SudokuBoard, n: int) -> nat
    decreases n,
{
    if n <= 0 {
        0
    } else {
        empty_among(board, n - 1) + if board.flat(n - 1) == 0 {
            1nat
        } else {
            0nat
        }
    }
}

/// How many cells are empty.
spec fn empty_cells(board: SudokuBoard) -> nat {
    empty_among(board, 81)
}

/// An upper bound on the number of boards that the search takes from its
/// stack for one pending board with `empty` empty cells: ten to the power
/// of `empty`.
spec fn search_bound(empty: nat) -> nat
    decreases empty,
{
    if empty == 0 {
        1
    } else {
        10 * search_bound((empty - 1) as nat)
    }
}

/// The sum of `search_bound` over the pending boards: an upper bound on the
/// number of steps that the search has left.
spec fn frontier_bound(frontier: Seq<Pending>) -> nat
    decreases frontier.len(),
{
    if frontier.len() == 0 {
        0
    } else {
        frontier_bound(frontier.drop_last()) + search_bound(empty_cells(frontier.last().1))
    }
}

/// The stack that holds `initial` alone is as the search wants it.
proof fn lemma_search_starts(initial: SudokuBoard, frontier: Seq<Pending>)
    requires
        frontier.len() == 1,
        frontier[0] == ((0usize, 0usize), initial),
    ensures
        searching(initial, frontier),
{
    assert(is_pending(initial, frontier[0]));
    assert forall|full: SudokuBoard| #[trigger] initial.completed_by(full) implies covers(
        frontier,
        full,
    ) by {
        assert(frontier[0].1.clues_kept_in(full));
    }
}

/// A board taken from the top of the stack that has no empty cell from its
/// resume cell on is a completion of `initial`, and every other completion
/// comes before it.
proof fn lemma_search_found(
    initial: SudokuBoard,
    popped_from: Seq<Pending>,
    origin: (usize, usize),
    board: SudokuBoard,
)
    requires
        searching(initial, popped_from),
        popped_from.len() > 0,
        popped_from.last() == (origin, board),
        board.filled_between(9 * origin.0 + origin.1, 81),
    ensures
        initial.completed_by(board),
        forall|other: SudokuBoard| #[trigger]
            initial.completed_by(other) && other != board ==> precedes(other, board),
{
    let top = popped_from.len() - 1;
    assert(is_pending(initial, popped_from[top]));
    assert forall|r: int, c: int| in_grid(r, c) implies #[trigger] board.cell(r, c) != 0 by {
        let k = 9 * r + c;
        assert(k / 9 == r && k % 9 == c);
        assert(board.flat(k) != 0);
    }
    assert forall|other: SudokuBoard| #[trigger]
        initial.completed_by(other) && other != board implies precedes(other, board) by {
        let i = choose|i: int|
            0 <= i < popped_from.len() && (#[trigger] popped_from[i]).1.clues_kept_in(other);
        if i < top {
            assert(parts_below(popped_from[i].1, popped_from[top].1));
            lemma_parts_below_orders(popped_from[i].1, board, other, board);
        } else {
            assert forall|r: int, c: int| in_grid(r, c) implies #[trigger] other.cell(r, c)
                == board.cell(r, c) by {}
            other.lemma_same_cells_same_board(&board);
        }
    }
}

/// What `solve` promises of a completion that it returns.
proof fn lemma_found_laws(initial: SudokuBoard, full: SudokuBoard)
    requires
        initial.completed_by(full),
    ensures
        initial.has_completion(),
        initial.is_solvable() ==> full.is_solved(),
        initial.is_puzzle() ==> full.is_solved(),
        initial.is_full() ==> full == initial,
{
    if initial.is_puzzle() {
        initial.lemma_puzzle_completions(full);
    }
    if initial.is_solvable() {
        let solved = choose|solved: SudokuBoard|
            solved.is_solved() && initial.clues_kept_in(solved);
        initial.lemma_completion_of_solvable_is_solved(solved, full);
    }
    if initial.is_full() {
        initial.lemma_full_board_is_own_completion(full);
    }
}

/// Where the stack has run empty, `initial` has no completion.
proof fn lemma_exhausted_laws(initial: SudokuBoard, frontier: Seq<Pending>)
    requires
        searching(initial, frontier),
        frontier.len() == 0,
    ensures
        !initial.has_completion(),
        !initial.is_solvable(),
        !initial.is_full(),
{
    assert forall|full: SudokuBoard| !initial.completed_by(full) by {
        if initial.completed_by(full) {
            assert(covers(frontier, full));
        }
    }
    if initial.is_solvable() {
        let solved = choose|solved: SudokuBoard|
            solved.is_solved() && initial.clues_kept_in(solved);
        initial.lemma_solution_is_completion(solved);
    }
    if initial.is_full() {
        initial.lemma_full_board_is_own_completion(initial);
    }
}

/// After the board on top of the stack gave way to its copies with each
/// candidate for its first empty cell, the stack is as the search wants it,
/// and its bound is smaller.
proof fn lemma_search_branches(
    initial: SudokuBoard,
    popped_from: Seq<Pending>,
    origin: (usize, usize),
    board: SudokuBoard,
    point: (usize, usize),
    digits: Seq<u8>,
    frontier: Seq<Pending>,
)
    requires
        searching(initial, popped_from),
        popped_from.len() > 0,
        popped_from.last() == (origin, board),
        point.0 < 9,
        point.1 < 9,
        9 * origin.0 + origin.1 <= 9 * point.0 + point.1,
        board.cell(point.0 as int, point.1 as int) == 0,
        board.filled_between(9 * origin.0 + origin.1, 9 * point.0 + point.1),
        forall|d: u8| digits.contains(d) <==> board.is_candidate(point.0 as int, point.1 as int, d),
        forall|i: int, j: int| 0 <= i < j < digits.len() ==> digits[i] < digits[j],
        digits.len() <= 9,
        branched(popped_from.drop_last(), board, point, digits, digits.len() as int, frontier),
    ensures
        searching(initial, frontier),
        frontier_bound(frontier) < frontier_bound(popped_from),
{
    let rest = popped_from.drop_last();
    let top = popped_from.len() - 1;
    let r = point.0 as int;
    let c = point.1 as int;
    assert(is_pending(initial, popped_from[top]));
    assert(board.filled_between(0, 9 * r + c)) by {
        assert forall|k: int| 0 <= k < 9 * r + c implies #[trigger] board.flat(k) != 0 by {
            if k < 9 * origin.0 + origin.1 {
                assert(board.flat(k) != 0);
            }
        }
    }
    // Every board on the stack is pending.
    assert forall|k: int| 0 <= k < frontier.len() implies is_pending(
        initial,
        #[trigger] frontier[k],
    ) by {
        if k < rest.len() {
            assert(frontier[k] == rest[k]);
            assert(is_pending(initial, popped_from[k]));
        } else {
            let d = digits[k - rest.len()];
            assert(digits.contains(d));
            initial.lemma_placement_extends(board, r, c, d, frontier[k].1);
            lemma_placement_fills(board, r, c, d, frontier[k].1);
        }
    }
    // Every completion is still covered.
    assert forall|full: SudokuBoard| #[trigger] initial.completed_by(full) implies covers(
        frontier,
        full,
    ) by {
        let i = choose|i: int|
            0 <= i < popped_from.len() && (#[trigger] popped_from[i]).1.clues_kept_in(full);
        if i < top {
            assert(frontier[i] == rest[i]);
            assert(frontier[i].1.clues_kept_in(full));
        } else {
            initial.lemma_completion_uses_candidate(board, r, c, full);
            let d = full.cell(r, c);
            assert(digits.contains(d));
            let j = choose|j: int| 0 <= j < digits.len() && digits[j] == d;
            let child = frontier[rest.len() + j];
            assert(board.placed(r, c, d, child.1));
            assert(child.1.clues_kept_in(full));
        }
    }
    // Each board parts below those above it.
    assert forall|i: int, j: int|
        #![trigger frontier[i], frontier[j]]
        0 <= i < j < frontier.len() implies parts_below(frontier[i].1, frontier[j].1) by {
        if j < rest.len() {
            assert(frontier[i] == rest[i] && frontier[j] == rest[j]);
            assert(parts_below(popped_from[i].1, popped_from[j].1));
        } else if i < rest.len() {
            assert(frontier[i] == rest[i]);
            assert(parts_below(popped_from[i].1, popped_from[top].1));
            lemma_parts_below_placement(
                frontier[i].1,
                board,
                r,
                c,
                digits[j - rest.len()],
                frontier[j].1,
            );
        } else {
            let lower = digits[i - rest.len()];
            assert(digits.contains(lower));
            lemma_placements_part(
                board,
                r,
                c,
                lower,
                frontier[i].1,
                digits[j - rest.len()],
                frontier[j].1,
            );
        }
    }
    // The bound has gone down.
    let empty = empty_cells(board);
    assert((9 * r + c) / 9 == r && (9 * r + c) % 9 == c);
    lemma_some_empty(board, 9 * r + c, 81);
    let below = search_bound((empty - 1) as nat);
    lemma_search_bound_positive((empty - 1) as nat);
    lemma_branched_bound(rest, board, point, digits, digits.len() as int, frontier);
    assert(digits.len() * below <= 9 * below) by (nonlinear_arith)
        requires
            digits.len() <= 9,
            below >= 0,
    ;
    assert(frontier_bound(popped_from) == frontier_bound(rest) + 10 * below);
}

/// The bound of a stack after branching: that of the boards below, and for
/// each board pushed the bound of a board with one empty cell fewer.
proof fn lemma_branched_bound(
    rest: Seq<Pending>,
    board: SudokuBoard,
    point: (usize, usize),
    digits: Seq<u8>,
    pushed: int,
    frontier: Seq<Pending>,
)
    requires
        point.0 < 9,
        point.1 < 9,
        board.cell(point.0 as int, point.1 as int) == 0,
        forall|d: u8| digits.contains(d) ==> d != 0,
        branched(rest, board, point, digits, pushed, frontier),
    ensures
        empty_cells(board) > 0,
        frontier_bound(frontier) == frontier_bound(rest) + pushed * search_bound(
            (empty_cells(board) - 1) as nat,
        ),
    decreases pushed,
{
    let r = point.0 as int;
    let c = point.1 as int;
    assert((9 * r + c) / 9 == r && (9 * r + c) % 9 == c);
    lemma_some_empty(board, 9 * r + c, 81);
    let below = search_bound((empty_cells(board) - 1) as nat);
    if pushed == 0 {
        assert(frontier =~= rest);
        assert(0 * below == 0) by (nonlinear_arith);
    } else {
        let before = frontier.drop_last();
        let d = digits[pushed - 1];
        assert(digits.contains(d));
        assert(branched(rest, board, point, digits, pushed - 1, before)) by {
            assert forall|k: int| 0 <= k < before.len() implies #[trigger] before[k]
                == frontier[k] by {}
        }
        lemma_branched_bound(rest, board, point, digits, pushed - 1, before);
        lemma_placement_fills(board, r, c, d, frontier.last().1);
        assert(pushed * below == (pushed - 1) * below + below) by (nonlinear_arith);
    }
}

/// Every bound is at least one.
proof fn lemma_search_bound_positive(empty: nat)
    ensures
        search_bound(empty) >= 1,
    decreases empty,
{
    if empty > 0 {
        lemma_search_bound_positive((empty - 1) as nat);
    }
}

/// A board with an empty cell among its first `n` has at least one empty
/// cell there.
proof fn lemma_some_empty(board: SudokuBoard, k: int, n: int)
    requires
        0 <= k < n <= 81,
        board.flat(k) == 0,
    ensures
        empty_among(board, n) > 0,
    decreases n,
{
    if n - 1 != k {
        lemma_some_empty(board, k, n - 1);
    }
}

/// Filling one empty cell leaves one empty cell fewer among the first `n`
/// cells, where the cell is one of them.
proof fn lemma_fill_among(board: SudokuBoard, k: int, next: SudokuBoard, n: int)
    requires
        0 <= k < 81,
        0 <= n <= 81,
        board.flat(k) == 0,
        next.flat(k) != 0,
        forall|m: int| 0 <= m < 81 && m != k ==> #[trigger] next.flat(m) == board.flat(m),
    ensures
        empty_among(board, n) == empty_among(next, n) + if k < n {
            1nat
        } else {
            0nat
        },
    decreases n,
{
    if n > 0 {
        lemma_fill_among(board, k, next, n - 1);
        if n - 1 != k {
            assert(next.flat(n - 1) == board.flat(n - 1));
        }
    }
}

/// Placing a digit in an empty cell leaves one empty cell fewer, and keeps
/// filled every cell that was.
proof fn lemma_placement_fills(board: SudokuBoard, r: int, c: int, d: u8, next: SudokuBoard)
    requires
        in_grid(r, c),
        board.cell(r, c) == 0,
        d != 0,
        board.placed(r, c, d, next),
    ensures
        empty_cells(next) + 1 == empty_cells(board),
        forall|hi: int| 0 <= hi <= 81 && board.filled_between(0, hi) ==> next.filled_between(0, hi),
{
    let k = 9 * r + c;
    assert(k / 9 == r && k % 9 == c);
    assert forall|m: int| 0 <= m < 81 && m != k implies #[trigger] next.flat(m) == board.flat(
        m,
    ) by {
        assert(in_grid(m / 9, m % 9));
        assert(next.cell(m / 9, m % 9) == board.cell(m / 9, m % 9));
    }
    assert(next.flat(k) == d);
    lemma_fill_among(board, k, next, 81);
    assert forall|hi: int| 0 <= hi <= 81 && board.filled_between(0, hi) implies next.filled_between(
        0,
        hi,
    ) by {
        assert forall|m: int| 0 <= m < hi implies #[trigger] next.flat(m) != 0 by {
            if m != k {
                assert(board.flat(m) != 0);
            }
        }
    }
}

/// Where `lower` parts below `upper`, every board that keeps the filled
/// cells of `lower` comes before every board that keeps those of `upper`.
proof fn lemma_parts_below_orders(
    lower: SudokuBoard,
    upper: SudokuBoard,
    over_lower: SudokuBoard,
    over_upper: SudokuBoard,
)
    requires
        parts_below(lower, upper),
        lower.clues_kept_in(over_lower),
        upper.clues_kept_in(over_upper),
    ensures
        precedes(over_lower, over_upper),
{
    let k = choose|k: int|
        0 <= k < 81 && #[trigger] lower.flat(k) < upper.flat(k) && lower.same_before(upper, k)
            && lower.filled_between(0, k + 1);
    assert forall|m: int| 0 <= m <= k implies over_lower.flat(m) == lower.flat(m)
        && over_upper.flat(m) == upper.flat(m) by {
        assert(in_grid(m / 9, m % 9));
        assert(lower.flat(m) != 0);
        if m < k {
            assert(lower.flat(m) == upper.flat(m));
        }
        assert(over_lower.cell(m / 9, m % 9) == lower.cell(m / 9, m % 9));
        assert(over_upper.cell(m / 9, m % 9) == upper.cell(m / 9, m % 9));
    }
    assert(over_lower.flat(k) < over_upper.flat(k));
    assert forall|m: int| 0 <= m < k implies #[trigger] over_lower.flat(m) == over_upper.flat(
        m,
    ) by {
        assert(lower.flat(m) == upper.flat(m));
    }
}

/// A board that parts below `board` parts below `board` with one more cell
/// filled.
proof fn lemma_parts_below_placement(
    lower: SudokuBoard,
    board: SudokuBoard,
    r: int,
    c: int,
    d: u8,
    next: SudokuBoard,
)
    requires
        in_grid(r, c),
        parts_below(lower, board),
        board.cell(r, c) == 0,
        board.placed(r, c, d, next),
    ensures
        parts_below(lower, next),
{
    let k = choose|k: int|
        0 <= k < 81 && #[trigger] lower.flat(k) < board.flat(k) && lower.same_before(board, k)
            && lower.filled_between(0, k + 1);
    assert((9 * r + c) / 9 == r && (9 * r + c) % 9 == c);
    assert forall|m: int| 0 <= m <= k implies next.flat(m) == board.flat(m) by {
        assert(in_grid(m / 9, m % 9));
        assert(lower.flat(m) != 0);
        if m < k {
            assert(lower.flat(m) == board.flat(m));
        }
        assert(next.cell(m / 9, m % 9) == board.cell(m / 9, m % 9));
    }
    assert(lower.flat(k) < next.flat(k));
    assert forall|m: int| 0 <= m < k implies #[trigger] lower.flat(m) == next.flat(m) by {
        assert(lower.flat(m) == board.flat(m));
    }
}

/// Of two placements in the first empty cell of a board, the one with the
/// smaller digit parts below the other.
proof fn lemma_placements_part(
    board: SudokuBoard,
    r: int,
    c: int,
    d1: u8,
    next1: SudokuBoard,
    d2: u8,
    next2: SudokuBoard,
)
    requires
        in_grid(r, c),
        board.filled_between(0, 9 * r + c),
        board.placed(r, c, d1, next1),
        board.placed(r, c, d2, next2),
        0 < d1 < d2,
    ensures
        parts_below(next1, next2),
{
    let k = 9 * r + c;
    assert(k / 9 == r && k % 9 == c);
    assert forall|m: int| 0 <= m < k implies next1.flat(m) == board.flat(m) && next2.flat(m)
        == board.flat(m) by {
        assert(in_grid(m / 9, m % 9));
        assert(next1.cell(m / 9, m % 9) == board.cell(m / 9, m % 9));
        assert(next2.cell(m / 9, m % 9) == board.cell(m / 9, m % 9));
    }
    assert(next1.flat(k) == d1 && next2.flat(k) == d2);
    assert forall|m: int| 0 <= m < k + 1 implies #[trigger] next1.flat(m) != 0 by {
        if m < k {
            assert(board.flat(m) != 0);
        }
    }
    assert forall|m: int| 0 <= m < k implies #[trigger] next1.flat(m) == next2.flat(m) by {}
    assert(next1.flat(k) < next2.flat(k));
}

} // verus!
