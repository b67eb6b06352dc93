//! The Sudoku rule for a unit (a row, a column or a square) and the
//! validator that holds all 27 units of a board to it.

use crate::board::{cell_char, in_grid, is_cell_char, is_condensed, SudokuBoard};
use vstd::prelude::*;
use vstd::relations::{sorted_by, total_ordering};
use vstd::seq_lib::{
    lemma_sorted_unique, seq_to_set_is_finite, to_multiset_contains, to_multiset_update,
};
use vstd::set_lib::lemma_subset_equality;

verus! {

/// The digits 1 to 9 in ascending order.
pub open spec fn digits() -> Seq<u8> {
    Seq::new(9, |i: int| (i + 1) as u8)
}

/// A unit is complete when it holds each of the digits 1 to 9 exactly once:
/// it is a rearrangement of `digits()`.
pub open spec fn is_complete_unit(unit: Seq<u8>) -> bool {
    unit.to_multiset() == digits().to_multiset()
}

/// No value is followed by a smaller one.
pub open spec fn is_ascending(values: Seq<u8>) -> bool {
    forall|i: int, j: int| 0 <= i < j < values.len() ==> values[i] <= values[j]
}

/// The order of `u8` as a relation.
pub open spec fn at_most() -> spec_fn(u8, u8) -> bool {
    |a: u8, b: u8| a <= b
}

/// Two different cells that share a row, a column or a square.
pub open spec fn peers(r1: int, c1: int, r2: int, c2: int) -> bool {
    &&& in_grid(r1, c1)
    &&& in_grid(r2, c2)
    &&& (r1 != r2 || c1 != c2)
    &&& (r1 == r2 || c1 == c2 || (r1 / 3 == r2 / 3 && c1 / 3 == c2 / 3))
}

/// Nine values are a complete unit exactly when each is a digit from 1 to 9
/// and no two of them are equal.
pub proof fn lemma_complete_unit_distinct_digits(unit: Seq<u8>)
    requires
        unit.len() == 9,
    ensures
        is_complete_unit(unit) <==> unit.no_duplicates() && forall|i: int|
            0 <= i < 9 ==> 1 <= #[trigger] unit[i] <= 9,
{
    broadcast use vstd::multiset::group_multiset_axioms;

    let d = digits();
    assert(d.no_duplicates());
    d.lemma_multiset_has_no_duplicates();
    if is_complete_unit(unit) {
        unit.lemma_multiset_has_no_duplicates_conv();
        assert forall|i: int| 0 <= i < 9 implies 1 <= #[trigger] unit[i] <= 9 by {
            to_multiset_contains(unit, unit[i]);
            to_multiset_contains(d, unit[i]);
            assert(unit.contains(unit[i]));
            let k = choose|k: int| 0 <= k < d.len() && d[k] == unit[i];
            assert(d[k] == k + 1);
        }
    }
    if unit.no_duplicates() && forall|i: int| 0 <= i < 9 ==> 1 <= #[trigger] unit[i] <= 9 {
        unit.unique_seq_to_set();
        d.unique_seq_to_set();
        seq_to_set_is_finite(unit);
        seq_to_set_is_finite(d);
        assert forall|x: u8| unit.to_set().contains(x) implies d.to_set().contains(x) by {
            let i = choose|i: int| 0 <= i < unit.len() && unit[i] == x;
            assert(d[x - 1] == x);
        }
        lemma_subset_equality(unit.to_set(), d.to_set());
        unit.lemma_multiset_has_no_duplicates();
        assert forall|x: u8| unit.to_multiset().count(x) == d.to_multiset().count(x) by {
            to_multiset_contains(unit, x);
            to_multiset_contains(d, x);
            assert(unit.to_set().contains(x) == d.to_set().contains(x));
        }
        assert(unit.to_multiset() =~= d.to_multiset());
    }
}

/// An ascending unit is complete exactly when it is `digits()` itself.
pub proof fn lemma_ascending_complete_unit(unit: Seq<u8>)
    requires
        is_ascending(unit),
    ensures
        is_complete_unit(unit) <==> unit == digits(),
{
    if is_complete_unit(unit) {
        assert(sorted_by(unit, at_most()));
        assert(sorted_by(digits(), at_most()));
        assert(total_ordering(at_most()));
        lemma_sorted_unique(unit, digits(), at_most());
    }
}

/// Exchanging two values of a sequence keeps what it holds.
pub proof fn lemma_swap_keeps_values(s: Seq<u8>, i: int, j: int)
    requires
        0 <= i < s.len(),
        0 <= j < s.len(),
    ensures
        s.update(i, s[j]).update(j, s[i]).to_multiset() == s.to_multiset(),
{
    broadcast use vstd::multiset::group_multiset_axioms;

    let mid = s.update(i, s[j]);
    to_multiset_update(s, i, s[j]);
    to_multiset_update(mid, j, s[i]);
    to_multiset_contains(s, s[i]);
    to_multiset_contains(s, s[j]);
    assert(s.contains(s[i]) && s.contains(s[j]));
    assert(mid[j] == s[j]);
    assert(mid.update(j, s[i]).to_multiset() =~= s.to_multiset());
}

/// The values of a unit in ascending order.
pub fn sorted_unit(values: [u8; 9]) -> (sorted: [u8; 9])
    ensures
        is_ascending(sorted@),
        sorted@.to_multiset() == values@.to_multiset(),
{
    let mut a = values;
    let mut i: usize = 1;
    while i < 9
        invariant
            1 <= i <= 9,
            a@.to_multiset() == values@.to_multiset(),
            forall|p: int, q: int| 0 <= p < q < i ==> a[p] <= a[q],
        decreases 9 - i,
    {
        let mut j: usize = i;
        while j > 0 && a[j - 1] > a[j]
            invariant
                j <= i < 9,
                a@.to_multiset() == values@.to_multiset(),
                forall|p: int, q: int| 0 <= p < q <= i && q != j ==> a[p] <= a[q],
            decreases j,
        {
            let ghost before = a@;
            let low: u8 = a[j];
            a[j] = a[j - 1];
            a[j - 1] = low;
            proof {
                lemma_swap_keeps_values(before, j as int, j - 1);
                let moved = before.update(j as int, before[j - 1]);
                assert(a@ =~= moved.update(j - 1, before[j as int]));
            }
            j -= 1;
        }
        i += 1;
    }
    a
}

impl SudokuBoard {
    /// The 27 units in their fixed order: rows 0 to 8, then columns 0 to 8,
    /// then the squares left to right and top to bottom.
    pub open spec fn unit(&self, k: int) -> Seq<u8> {
        if k < 9 {
            self.row(k)
        } else if k < 18 {
            self.column(k - 9)
        } else {
            self.square(3 * ((k - 18) / 3), 3 * ((k - 18) % 3))
        }
    }

    /// Every row, column and square holds each of the digits 1 to 9 exactly once.
    pub open spec fn is_solved(&self) -> bool {
        forall|k: int| 0 <= k < 27 ==> is_complete_unit(#[trigger] self.unit(k))
    }

    /// Every cell holds a digit from 1 to 9.
    pub open spec fn all_digits(&self) -> bool {
        forall|r: int, c: int| in_grid(r, c) ==> 1 <= #[trigger] self.cell(r, c) <= 9
    }

    /// No two peers hold the same value.
    pub open spec fn no_conflict(&self) -> bool {
        forall|r1: int, c1: int, r2: int, c2: int| #[trigger]
            peers(r1, c1, r2, c2) ==> self.cell(r1, c1) != self.cell(r2, c2)
    }

    /// In a solved board every cell holds a digit from 1 to 9.
    pub proof fn lemma_solved_cell_is_digit(&self, r: int, c: int)
        requires
            self.is_solved(),
            in_grid(r, c),
        ensures
            1 <= self.cell(r, c) <= 9,
    {
        let row = self.unit(r);
        lemma_complete_unit_distinct_digits(row);
        assert(row[c] == self.cell(r, c));
    }

    /// In a solved board two peers hold different digits.
    pub proof fn lemma_solved_peers_differ(&self, r1: int, c1: int, r2: int, c2: int)
        requires
            self.is_solved(),
            peers(r1, c1, r2, c2),
        ensures
            self.cell(r1, c1) != self.cell(r2, c2),
    {
        if r1 == r2 {
            let row = self.unit(r1);
            lemma_complete_unit_distinct_digits(row);
            assert(row[c1] == self.cell(r1, c1) && row[c2] == self.cell(r2, c2));
        } else if c1 == c2 {
            let column = self.unit(9 + c1);
            lemma_complete_unit_distinct_digits(column);
            assert(column[r1] == self.cell(r1, c1) && column[r2] == self.cell(r2, c2));
        } else {
            let square = self.unit(18 + 3 * (r1 / 3) + c1 / 3);
            let i1 = 3 * (r1 % 3) + c1 % 3;
            let i2 = 3 * (r2 % 3) + c2 % 3;
            lemma_complete_unit_distinct_digits(square);
            assert(square[i1] == self.cell(r1, c1) && square[i2] == self.cell(r2, c2));
        }
    }

    /// Where every cell holds a digit from 1 to 9 and no two peers hold the
    /// same one, each unit is complete.
    pub proof fn lemma_distinct_digits_complete_unit(&self, k: int)
        requires
            self.all_digits(),
            self.no_conflict(),
            0 <= k < 27,
        ensures
            is_complete_unit(self.unit(k)),
    {
        let u = self.unit(k);
        let top = 3 * ((k - 18) / 3);
        let left = 3 * ((k - 18) % 3);
        assert forall|i: int| 0 <= i < 9 implies 1 <= #[trigger] u[i] <= 9 by {
            if k < 9 {
                assert(u[i] == self.cell(k, i));
            } else if k < 18 {
                assert(u[i] == self.cell(i, k - 9));
            } else {
                assert(u[i] == self.cell(top + i / 3, left + i % 3));
            }
        }
        assert forall|i: int, j: int| 0 <= i < 9 && 0 <= j < 9 && i != j implies u[i] != u[j] by {
            if k < 9 {
                assert(peers(k, i, k, j));
            } else if k < 18 {
                assert(peers(i, k - 9, j, k - 9));
            } else {
                assert(peers(top + i / 3, left + i % 3, top + j / 3, left + j % 3));
            }
        }
        lemma_complete_unit_distinct_digits(u);
    }

    /// A board is solved exactly when every cell holds a digit from 1 to 9
    /// and no two cells of one row, column or square hold the same digit.
    pub proof fn lemma_solved_iff_distinct_digits(&self)
        ensures
            self.is_solved() <==> self.all_digits() && self.no_conflict(),
    {
        if self.is_solved() {
            assert forall|r: int, c: int| in_grid(r, c) implies 1 <= #[trigger] self.cell(r, c)
                <= 9 by {
                self.lemma_solved_cell_is_digit(r, c);
            }
            assert forall|r1: int, c1: int, r2: int, c2: int| #[trigger]
                peers(r1, c1, r2, c2) implies self.cell(r1, c1) != self.cell(r2, c2) by {
                self.lemma_solved_peers_differ(r1, c1, r2, c2);
            }
        }
        if self.all_digits() && self.no_conflict() {
            assert forall|k: int| 0 <= k < 27 implies is_complete_unit(#[trigger] self.unit(k)) by {
                self.lemma_distinct_digits_complete_unit(k);
            }
        }
    }

    /// The condensed text of a board whose cells hold at most 9 is condensed
    /// text, and reading it gives the board back.
    pub proof fn lemma_condensed_round_trip(&self, parsed: SudokuBoard)
        requires
            forall|r: int, c: int| in_grid(r, c) ==> #[trigger] self.cell(r, c) <= 9,
            parsed.is_parse_of(self.condensed()),
        ensures
            is_condensed(self.condensed()),
            parsed == *self,
    {
        let text = self.condensed();
        assert forall|k: int| 0 <= k < 81 implies is_cell_char(#[trigger] text[k]) by {
            assert(self.cell(k / 9, k % 9) <= 9);
        }
        assert forall|r: int, c: int| in_grid(r, c) implies #[trigger] parsed.cell(r, c)
            == self.cell(r, c) by {
            let k = 9 * r + c;
            assert(k / 9 == r && k % 9 == c);
            assert(self.cell(r, c) <= 9);
            assert(text[k] == cell_char(self.flat(k)));
        }
        parsed.lemma_same_cells_same_board(self);
    }

    /// Reading the condensed text of a solved board gives a solved board.
    pub proof fn lemma_solved_round_trip(&self, parsed: SudokuBoard)
        requires
            self.is_solved(),
            parsed.is_parse_of(self.condensed()),
        ensures
            is_condensed(self.condensed()),
            parsed.is_solved(),
    {
        self.lemma_solved_iff_distinct_digits();
        self.lemma_condensed_round_trip(parsed);
    }

    /// A board on which two cells of one row, column or square hold the same
    /// value is not solved.
    pub proof fn lemma_duplicate_is_not_solved(&self, r1: int, c1: int, r2: int, c2: int)
        requires
            peers(r1, c1, r2, c2),
            self.cell(r1, c1) == self.cell(r2, c2),
        ensures
            !self.is_solved(),
    {
        self.lemma_solved_iff_distinct_digits();
    }

    /// The number of the first unit, in the order of `unit`, that is not
    /// complete; `None` when the board is solved.
    pub fn first_failed_unit(&self) -> (failed: Option<usize>)
        ensures
            match failed {
                Some(k) => k < 27 && !is_complete_unit(self.unit(k as int)) && forall|j: int|
                    0 <= j < k ==> is_complete_unit(#[trigger] self.unit(j)),
                None => self.is_solved(),
            },
    {
        let squares = self.all_squares();
        let mut unit: usize = 0;
        while unit < 27
            invariant
                unit <= 27,
                squares.len() == 9,
                forall|s: int| 0 <= s < 9 ==> squares[s]@ == self.square(3 * (s / 3), 3 * (s % 3)),
                forall|j: int| 0 <= j < unit ==> is_complete_unit(#[trigger] self.unit(j)),
            decreases 27 - unit,
        {
            let elements: [u8; 9] = if unit < 9 {
                self.get_row(unit)
            } else if unit < 18 {
                self.get_col(unit - 9)
            } else {
                squares[unit - 18]
            };
            assert(elements@ == self.unit(unit as int));
            let sorted = sorted_unit(elements);
            let mut i: usize = 0;
            while i < 9
                invariant
                    i <= 9,
                    unit < 27,
                    is_ascending(sorted@),
                    sorted@.to_multiset() == self.unit(unit as int).to_multiset(),
                    forall|j: int| 0 <= j < unit ==> is_complete_unit(#[trigger] self.unit(j)),
                    forall|k: int| 0 <= k < i ==> sorted[k] == k + 1,
                decreases 9 - i,
            {
                if sorted[i] != (i + 1) as u8 {
                    proof {
                        lemma_ascending_complete_unit(sorted@);
                        assert(digits()[i as int] == i + 1);
                    }
                    return Some(unit);
                }
                i += 1;
            }
            proof {
                lemma_ascending_complete_unit(sorted@);
                assert(sorted@ =~= digits());
            }
            unit += 1;
        }
        None
    }

    /// Whether the board is solved: whether every cell holds a digit from 1
    /// to 9 and no row, column or square holds a digit twice.
    pub fn check(&self) -> (ok: bool)
        ensures
            ok == self.is_solved(),
            ok == (self.all_digits() && self.no_conflict()),
    {
        proof {
            self.lemma_solved_iff_distinct_digits();
        }
        self.first_failed_unit().is_none()
    }
}

} // verus!
