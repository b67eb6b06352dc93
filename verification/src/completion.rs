//! What it means to complete a board, and what follows from it.

use crate::board::{in_grid, SudokuBoard};
use crate::validate::peers;
use vstd::prelude::*;

verus! {

impl SudokuBoard {
    /// No cell is empty.
    pub open spec fn is_full(&self) -> bool {
        forall|r: int, c: int| in_grid(r, c) ==> #[trigger] self.cell(r, c) != 0
    }

    /// Every filled cell of `self` holds the same value in `other`.
    pub open spec fn clues_kept_in(&self, other: SudokuBoard) -> bool {
        forall|r: int, c: int|
            in_grid(r, c) && self.cell(r, c) != 0 ==> #[trigger] other.cell(r, c) == self.cell(r, c)
    }

    /// Cell `(r, c)` holds a digit from 1 to 9 that none of its peers holds.
    pub open spec fn legal_at(&self, r: int, c: int) -> bool {
        &&& 1 <= self.cell(r, c) <= 9
        &&& forall|r2: int, c2: int| #[trigger]
            peers(r, c, r2, c2) ==> self.cell(r2, c2) != self.cell(r, c)
    }

    /// `other` keeps every filled cell of `self`, and each cell that it fills
    /// beyond them is legal in `other`.
    pub open spec fn extended_by(&self, other: SudokuBoard) -> bool {
        &&& self.clues_kept_in(other)
        &&& forall|r: int, c: int|
            in_grid(r, c) && self.cell(r, c) == 0 && #[trigger] other.cell(r, c) != 0
                ==> other.legal_at(r, c)
    }

    /// `full` is a completion of `self`: it has no empty cell, keeps every
    /// filled cell of `self`, and holds in each cell that `self` leaves empty
    /// a digit from 1 to 9 that none of the cell's peers holds.
    pub open spec fn completed_by(&self, full: SudokuBoard) -> bool {
        self.extended_by(full) && full.is_full()
    }

    /// Some board is a completion of `self`.
    pub open spec fn has_completion(&self) -> bool {
        exists|full: SudokuBoard| self.completed_by(full)
    }

    /// Some solved board keeps every filled cell of `self`.
    pub open spec fn is_solvable(&self) -> bool {
        exists|solved: SudokuBoard| solved.is_solved() && self.clues_kept_in(solved)
    }

    /// A puzzle: no cell holds more than 9, and no two peers hold the same
    /// digit.
    pub open spec fn is_puzzle(&self) -> bool {
        &&& forall|r: int, c: int| in_grid(r, c) ==> #[trigger] self.cell(r, c) <= 9
        &&& forall|r1: int, c1: int, r2: int, c2: int| #[trigger]
            peers(r1, c1, r2, c2) && self.cell(r1, c1) != 0 ==> self.cell(r1, c1) != self.cell(
                r2,
                c2,
            )
    }

    /// Neither cell `(r, c)` nor any of its peers holds `d`.
    pub open spec fn is_unused_at(&self, r: int, c: int, d: u8) -> bool {
        &&& self.cell(r, c) != d
        &&& forall|r2: int, c2: int| #[trigger] peers(r, c, r2, c2) ==> self.cell(r2, c2) != d
    }

    /// `d` is a digit from 1 to 9 that occurs neither in row `r`, nor in
    /// column `c`, nor in the square of cell `(r, c)`.
    pub open spec fn is_candidate(&self, r: int, c: int, d: u8) -> bool {
        &&& 1 <= d <= 9
        &&& !self.row(r).contains(d)
        &&& !self.column(c).contains(d)
        &&& !self.square(r, c).contains(d)
    }

    /// `other` is `self` with `value` in cell `(r, c)`.
    pub open spec fn placed(&self, r: int, c: int, value: u8, other: SudokuBoard) -> bool {
        forall|r2: int, c2: int|
            in_grid(r2, c2) ==> #[trigger] other.cell(r2, c2) == if r2 == r && c2 == c {
                value
            } else {
                self.cell(r2, c2)
            }
    }

    /// The first `k` cells, counting row by row, hold the same values in
    /// `self` and in `other`.
    pub open spec fn same_before(&self, other: SudokuBoard, k: int) -> bool {
        forall|m: int| 0 <= m < k ==> #[trigger] self.flat(m) == other.flat(m)
    }

    /// The cells numbered `lo` up to `hi`, counting row by row, are all filled.
    pub open spec fn filled_between(&self, lo: int, hi: int) -> bool {
        forall|k: int| lo <= k < hi ==> #[trigger] self.flat(k) != 0
    }

    /// A digit is a candidate for a cell exactly when neither the cell nor
    /// any of its peers holds it.
    pub proof fn lemma_candidate_iff_unused(&self, r: int, c: int, d: u8)
        requires
            in_grid(r, c),
        ensures
            self.is_candidate(r, c, d) <==> 1 <= d <= 9 && self.is_unused_at(r, c, d),
    {
        let row = self.row(r);
        let column = self.column(c);
        let square = self.square(r, c);
        if self.is_candidate(r, c, d) {
            assert(row[c] == self.cell(r, c));
            assert forall|r2: int, c2: int| #[trigger] peers(r, c, r2, c2) implies self.cell(
                r2,
                c2,
            ) != d by {
                if r2 == r {
                    assert(row[c2] == self.cell(r2, c2));
                } else if c2 == c {
                    assert(column[r2] == self.cell(r2, c2));
                } else {
                    let k = 3 * (r2 % 3) + c2 % 3;
                    assert(square[k] == self.cell(r2, c2));
                }
            }
        }
        if 1 <= d <= 9 && self.is_unused_at(r, c, d) {
            assert forall|i: int| 0 <= i < 9 implies row[i] != d && column[i] != d && square[i]
                != d by {
                if i != c {
                    assert(peers(r, c, r, i));
                }
                if i != r {
                    assert(peers(r, c, i, c));
                }
                let r2 = 3 * (r / 3) + i / 3;
                let c2 = 3 * (c / 3) + i % 3;
                if r2 != r || c2 != c {
                    assert(peers(r, c, r2, c2));
                }
            }
        }
    }

    /// Placing a candidate in an empty cell of a board that extends `self`
    /// gives a board that extends `self`.
    pub proof fn lemma_placement_extends(
        &self,
        board: SudokuBoard,
        r: int,
        c: int,
        d: u8,
        next: SudokuBoard,
    )
        requires
            in_grid(r, c),
            self.extended_by(board),
            board.cell(r, c) == 0,
            board.is_candidate(r, c, d),
            board.placed(r, c, d, next),
        ensures
            self.extended_by(next),
            board.clues_kept_in(next),
    {
        board.lemma_candidate_iff_unused(r, c, d);
        assert(self.cell(r, c) == 0) by {
            if self.cell(r, c) != 0 {
                assert(board.cell(r, c) == self.cell(r, c));
            }
        }
        assert forall|r2: int, c2: int|
            in_grid(r2, c2) && self.cell(r2, c2) != 0 implies #[trigger] next.cell(r2, c2)
            == self.cell(r2, c2) by {
            assert(board.cell(r2, c2) == self.cell(r2, c2));
        }
        assert forall|r2: int, c2: int|
            in_grid(r2, c2) && self.cell(r2, c2) == 0 && #[trigger] next.cell(r2, c2)
                != 0 implies next.legal_at(r2, c2) by {
            if r2 == r && c2 == c {
                assert forall|r3: int, c3: int| #[trigger] peers(r2, c2, r3, c3) implies next.cell(
                    r3,
                    c3,
                ) != next.cell(r2, c2) by {
                    assert(next.cell(r3, c3) == board.cell(r3, c3));
                }
            } else {
                assert(board.cell(r2, c2) == next.cell(r2, c2));
                assert(board.legal_at(r2, c2));
                assert forall|r3: int, c3: int| #[trigger] peers(r2, c2, r3, c3) implies next.cell(
                    r3,
                    c3,
                ) != next.cell(r2, c2) by {
                    if r3 == r && c3 == c {
                        assert(peers(r, c, r2, c2));
                    } else {
                        assert(next.cell(r3, c3) == board.cell(r3, c3));
                    }
                }
            }
        }
    }

    /// In a completion of `self` that keeps the filled cells of `board`, an
    /// empty cell of `board` holds one of the cell's candidates on `board`.
    pub proof fn lemma_completion_uses_candidate(
        &self,
        board: SudokuBoard,
        r: int,
        c: int,
        full: SudokuBoard,
    )
        requires
            in_grid(r, c),
            self.clues_kept_in(board),
            board.cell(r, c) == 0,
            self.completed_by(full),
            board.clues_kept_in(full),
        ensures
            board.is_candidate(r, c, full.cell(r, c)),
    {
        let d = full.cell(r, c);
        assert(self.cell(r, c) == 0) by {
            if self.cell(r, c) != 0 {
                assert(board.cell(r, c) == self.cell(r, c));
            }
        }
        assert(full.legal_at(r, c));
        assert forall|r2: int, c2: int| #[trigger] peers(r, c, r2, c2) implies board.cell(r2, c2)
            != d by {
            if board.cell(r2, c2) != 0 {
                assert(full.cell(r2, c2) == board.cell(r2, c2));
            }
        }
        board.lemma_candidate_iff_unused(r, c, d);
    }

    /// A solved board that keeps the filled cells of `self` is a completion
    /// of `self`.
    pub proof fn lemma_solution_is_completion(&self, solved: SudokuBoard)
        requires
            solved.is_solved(),
            self.clues_kept_in(solved),
        ensures
            self.completed_by(solved),
    {
        solved.lemma_solved_iff_distinct_digits();
        assert forall|r: int, c: int|
            in_grid(r, c) && self.cell(r, c) == 0 && #[trigger] solved.cell(r, c)
                != 0 implies solved.legal_at(r, c) by {
            assert forall|r2: int, c2: int| #[trigger] peers(r, c, r2, c2) implies solved.cell(
                r2,
                c2,
            ) != solved.cell(r, c) by {
                assert(peers(r2, c2, r, c));
            }
        }
    }

    /// Where some solved board keeps the filled cells of `self`, every
    /// completion of `self` is solved.
    pub proof fn lemma_completion_of_solvable_is_solved(
        &self,
        solved: SudokuBoard,
        full: SudokuBoard,
    )
        requires
            solved.is_solved(),
            self.clues_kept_in(solved),
            self.completed_by(full),
        ensures
            full.is_solved(),
    {
        solved.lemma_solved_iff_distinct_digits();
        full.lemma_solved_iff_distinct_digits();
        assert forall|r: int, c: int| in_grid(r, c) implies 1 <= #[trigger] full.cell(r, c)
            <= 9 by {
            if self.cell(r, c) != 0 {
                assert(solved.cell(r, c) == self.cell(r, c));
            } else {
                assert(full.legal_at(r, c));
            }
        }
        assert forall|r1: int, c1: int, r2: int, c2: int| #[trigger]
            peers(r1, c1, r2, c2) implies full.cell(r1, c1) != full.cell(r2, c2) by {
            if self.cell(r1, c1) == 0 {
                assert(full.legal_at(r1, c1));
            } else if self.cell(r2, c2) == 0 {
                assert(full.legal_at(r2, c2));
                assert(peers(r2, c2, r1, c1));
            } else {
                assert(solved.cell(r1, c1) == self.cell(r1, c1));
                assert(solved.cell(r2, c2) == self.cell(r2, c2));
                assert(full.cell(r1, c1) == self.cell(r1, c1));
                assert(full.cell(r2, c2) == self.cell(r2, c2));
            }
        }
    }

    /// The completions of a puzzle are the solved boards that keep its
    /// filled cells.
    pub proof fn lemma_puzzle_completions(&self, full: SudokuBoard)
        requires
            self.is_puzzle(),
        ensures
            self.completed_by(full) <==> full.is_solved() && self.clues_kept_in(full),
    {
        if full.is_solved() && self.clues_kept_in(full) {
            self.lemma_solution_is_completion(full);
        }
        if self.completed_by(full) {
            assert forall|r: int, c: int| in_grid(r, c) implies 1 <= #[trigger] full.cell(r, c)
                <= 9 by {
                if self.cell(r, c) == 0 {
                    assert(full.legal_at(r, c));
                }
            }
            assert forall|r1: int, c1: int, r2: int, c2: int| #[trigger]
                peers(r1, c1, r2, c2) implies full.cell(r1, c1) != full.cell(r2, c2) by {
                if self.cell(r1, c1) == 0 {
                    assert(full.legal_at(r1, c1));
                } else if self.cell(r2, c2) == 0 {
                    assert(full.legal_at(r2, c2));
                    assert(peers(r2, c2, r1, c1));
                } else {
                    assert(full.cell(r1, c1) == self.cell(r1, c1));
                    assert(full.cell(r2, c2) == self.cell(r2, c2));
                }
            }
            full.lemma_solved_iff_distinct_digits();
        }
    }

    /// A board without an empty cell has itself as its only completion.
    pub proof fn lemma_full_board_is_own_completion(&self, full: SudokuBoard)
        requires
            self.is_full(),
        ensures
            self.completed_by(*self),
            self.completed_by(full) ==> full == *self,
    {
        if self.completed_by(full) {
            assert forall|r: int, c: int| in_grid(r, c) implies #[trigger] full.cell(r, c)
                == self.cell(r, c) by {}
            full.lemma_same_cells_same_board(self);
        }
    }
}

/// `a` comes before `b` in the order of the cell values read row by row:
/// at the first cell where they differ, `a` holds the smaller value.
pub open spec fn precedes(a: SudokuBoard, b: SudokuBoard) -> bool {
    exists|k: int| 0 <= k < 81 && #[trigger] a.flat(k) < b.flat(k) && a.same_before(b, k)
}

/// Of two boards at most one comes before the other.
pub proof fn lemma_precedes_one_way(a: SudokuBoard, b: SudokuBoard)
    requires
        precedes(a, b),
    ensures
        !precedes(b, a),
{
    let k = choose|k: int| 0 <= k < 81 && #[trigger] a.flat(k) < b.flat(k) && a.same_before(b, k);
    if precedes(b, a) {
        let j = choose|j: int|
            0 <= j < 81 && #[trigger] b.flat(j) < a.flat(j) && b.same_before(a, j);
        if j < k {
            assert(a.flat(j) == b.flat(j));
        } else if k < j {
            assert(b.flat(k) == a.flat(k));
        }
    }
}

/// A board has at most one completion that all its other completions come
/// before: what `solve` returns depends on its argument alone.
pub proof fn lemma_last_completion_is_unique(
    initial: SudokuBoard,
    first: SudokuBoard,
    second: SudokuBoard,
)
    requires
        initial.completed_by(first),
        initial.completed_by(second),
        forall|other: SudokuBoard| #[trigger]
            initial.completed_by(other) && other != first ==> precedes(other, first),
        forall|other: SudokuBoard| #[trigger]
            initial.completed_by(other) && other != second ==> precedes(other, second),
    ensures
        first == second,
{
    if first != second {
        assert(precedes(second, first));
        assert(precedes(first, second));
        lemma_precedes_one_way(first, second);
    }
}

} // verus!
