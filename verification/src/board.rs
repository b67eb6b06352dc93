//! The 9×9 board, its textual form, and its row, column and square accessors.

use vstd::prelude::*;

verus! {

/// A 9×9 matrix of cells. A cell holding 0 is empty; 1 to 9 is a placed digit.
pub struct SudokuBoard {
    pub board: [[u8; 9]; 9],
}

/// `(r, c)` names a cell of the board.
pub open spec fn in_grid(r: int, c: int) -> bool {
    0 <= r < 9 && 0 <= c < 9
}

/// One of the decimal digits `0` to `9`.
pub open spec fn is_digit_char(ch: char) -> bool {
    '0' <= ch && ch <= '9'
}

/// The value of a decimal digit.
pub open spec fn digit_value(ch: char) -> u8 {
    (ch as u32 - '0' as u32) as u8
}

/// A character that may stand for a cell in condensed text: `.` or a
/// decimal digit.
pub open spec fn is_cell_char(ch: char) -> bool {
    ch == '.' || is_digit_char(ch)
}

/// The cell value that a character of condensed text stands for: `.` is an
/// empty cell, a decimal digit is its own value.
pub open spec fn cell_value(ch: char) -> u8 {
    if ch == '.' {
        0u8
    } else {
        digit_value(ch)
    }
}

/// The character that stands for a cell value in condensed text.
pub open spec fn cell_char(value: u8) -> char {
    if value == 0 {
        '.'
    } else {
        (value + '0' as u32) as char
    }
}

/// Condensed text: exactly 81 cell characters, read row by row.
pub open spec fn is_condensed(text: Seq<char>) -> bool {
    text.len() == 81 && forall|i: int| 0 <= i < 81 ==> is_cell_char(#[trigger] text[i])
}

/// A line of line text: exactly nine decimal digits.
pub open spec fn is_digit_line(line: Seq<char>) -> bool {
    line.len() == 9 && forall|c: int| 0 <= c < 9 ==> is_digit_char(#[trigger] line[c])
}

/// Line text: exactly nine lines of nine decimal digits each, one line for
/// each row. It has no character for an empty cell.
pub open spec fn is_line_text(lines: Seq<String>) -> bool {
    lines.len() == 9 && forall|r: int| 0 <= r < 9 ==> is_digit_line((#[trigger] lines[r])@)
}

impl View for SudokuBoard {
    type V = Seq<Seq<u8>>;

    /// The rows of the board, top to bottom, each left to right.
    open spec fn view(&self) -> Seq<Seq<u8>> {
        Seq::new(9, |r: int| self.board[r]@)
    }
}

impl Clone for SudokuBoard {
    fn clone(&self) -> (copy: Self)
        ensures
            copy == *self,
    {
        SudokuBoard { board: self.board }
    }
}

impl SudokuBoard {
    /// The value of the cell in row `r`, column `c`.
    pub open spec fn cell(&self, r: int, c: int) -> u8 {
        self@[r][c]
    }

    /// The value of the `k`-th cell, counting row by row from the top-left corner.
    pub open spec fn flat(&self, k: int) -> u8 {
        self.cell(k / 9, k % 9)
    }

    /// The nine values of row `r`, left to right.
    pub open spec fn row(&self, r: int) -> Seq<u8> {
        Seq::new(9, |c: int| self.cell(r, c))
    }

    /// The nine values of column `c`, top to bottom.
    pub open spec fn column(&self, c: int) -> Seq<u8> {
        Seq::new(9, |r: int| self.cell(r, c))
    }

    /// The nine values of the 3×3 square that contains cell `(r, c)`,
    /// scanned row by row from its top-left corner.
    pub open spec fn square(&self, r: int, c: int) -> Seq<u8> {
        Seq::new(9, |k: int| self.cell(3 * (r / 3) + k / 3, 3 * (c / 3) + k % 3))
    }

    /// The board holds in each cell what the character at the cell's place
    /// in `text` stands for.
    pub open spec fn is_parse_of(&self, text: Seq<char>) -> bool {
        forall|r: int, c: int|
            in_grid(r, c) ==> #[trigger] self.cell(r, c) == cell_value(text[9 * r + c])
    }

    /// The board holds in each cell the value of the digit at the cell's
    /// place in the line of the cell's row.
    pub open spec fn is_parse_of_lines(&self, lines: Seq<String>) -> bool {
        forall|r: int, c: int|
            in_grid(r, c) ==> #[trigger] self.cell(r, c) == digit_value(lines[r]@[c])
    }

    /// The condensed text of the board: one character per cell, row by row.
    pub open spec fn condensed(&self) -> Seq<char> {
        Seq::new(81, |k: int| cell_char(self.flat(k)))
    }

    /// Two boards that agree on every cell are the same board.
    pub proof fn lemma_same_cells_same_board(&self, other: &SudokuBoard)
        requires
            forall|r: int, c: int| in_grid(r, c) ==> #[trigger] self.cell(r, c) == other.cell(r, c),
        ensures
            *self == *other,
    {
        assert forall|r: int| 0 <= r < 9 implies self.board[r] == other.board[r] by {
            assert forall|c: int| 0 <= c < 9 implies self.board[r][c] == other.board[r][c] by {
                assert(self.cell(r, c) == other.cell(r, c));
            }
            assert(self.board[r] =~= other.board[r]);
        }
        assert(self.board =~= other.board);
    }

    /// The board with every cell empty.
    pub fn new() -> (empty: SudokuBoard)
        ensures
            forall|r: int, c: int| in_grid(r, c) ==> #[trigger] empty.cell(r, c) == 0,
    {
        SudokuBoard { board: [[0; 9]; 9] }
    }

    /// Reads a board from condensed text.
    pub fn from_condensed(condensed: &str) -> (parsed: SudokuBoard)
        requires
            is_condensed(condensed@),
        ensures
            parsed.is_parse_of(condensed@),
            forall|r: int, c: int| in_grid(r, c) ==> #[trigger] parsed.cell(r, c) <= 9,
    {
        let mut board = SudokuBoard::new();
        let mut i: usize = 0;
        for c in it: condensed.chars()
            invariant
                i == it.index(),
                it.seq() == condensed@,
                is_condensed(condensed@),
                forall|k: int| 0 <= k < i ==> board.flat(k) == cell_value(#[trigger] condensed@[k]),
        {
            let n: u8 = if c == '.' {
                0
            } else {
                (c as u32 - '0' as u32) as u8
            };
            board.board[i / 9][i % 9] = n;
            i += 1;
        }
        assert forall|r: int, c: int| in_grid(r, c) implies #[trigger] board.cell(r, c)
            == cell_value(condensed@[9 * r + c]) by {
            let k = 9 * r + c;
            assert(k / 9 == r && k % 9 == c);
            assert(board.flat(k) == cell_value(condensed@[k]));
        }
        assert forall|r: int, c: int| in_grid(r, c) implies #[trigger] board.cell(r, c) <= 9 by {
            assert(is_cell_char(condensed@[9 * r + c]));
        }
        board
    }

    /// Reads a board from line text: the digit at place `c` of line `r` is
    /// the value of cell `(r, c)`.
    pub fn from_lines(lines: &Vec<String>) -> (parsed: SudokuBoard)
        requires
            is_line_text(lines@),
        ensures
            parsed.is_parse_of_lines(lines@),
            forall|r: int, c: int| in_grid(r, c) ==> #[trigger] parsed.cell(r, c) <= 9,
    {
        let mut board = SudokuBoard::new();
        for r in 0..9usize
            invariant
                is_line_text(lines@),
                forall|i: int, j: int|
                    0 <= i < r && 0 <= j < 9 ==> board.cell(i, j) == digit_value(
                        #[trigger] lines[i]@[j],
                    ),
        {
            let line = lines[r].as_str();
            let mut c: usize = 0;
            for digit in it: line.chars()
                invariant
                    r < 9,
                    c == it.index(),
                    it.seq() == line@,
                    line@ == lines[r as int]@,
                    is_line_text(lines@),
                    forall|i: int, j: int|
                        0 <= i < r && 0 <= j < 9 ==> board.cell(i, j) == digit_value(
                            #[trigger] lines[i]@[j],
                        ),
                    forall|j: int|
                        0 <= j < c ==> board.cell(r as int, j) == digit_value(#[trigger] line@[j]),
            {
                board.board[r][c] = (digit as u32 - '0' as u32) as u8;
                c += 1;
            }
        }
        assert forall|r: int, c: int| in_grid(r, c) implies #[trigger] board.cell(r, c) <= 9 by {
            assert(is_digit_line(lines[r]@));
            assert(is_digit_char(lines[r]@[c]));
        }
        board
    }

    /// Reads a board from `lines` where they are line text; `None` where
    /// they are not.
    pub fn parse_lines(lines: &Vec<String>) -> (parsed: Option<SudokuBoard>)
        ensures
            parsed is Some <==> is_line_text(lines@),
            parsed matches Some(board) ==> board.is_parse_of_lines(lines@),
    {
        if lines.len() != 9 {
            return None;
        }
        for r in 0..9usize
            invariant
                lines.len() == 9,
                forall|i: int| 0 <= i < r ==> is_digit_line((#[trigger] lines[i])@),
        {
            let line = lines[r].as_str();
            let mut count: usize = 0;
            for c in it: line.chars()
                invariant
                    r < 9,
                    lines.len() == 9,
                    count == it.index(),
                    count <= 9,
                    it.seq() == line@,
                    line@ == lines[r as int]@,
                    forall|k: int| 0 <= k < count ==> is_digit_char(#[trigger] line@[k]),
            {
                if count == 9 || !('0' <= c && c <= '9') {
                    return None;
                }
                count += 1;
            }
            if count != 9 {
                return None;
            }
        }
        Some(SudokuBoard::from_lines(lines))
    }

    /// Reads a board from `text` where it is condensed text; `None` where it
    /// is not.
    pub fn parse_condensed(text: &str) -> (parsed: Option<SudokuBoard>)
        ensures
            parsed is Some <==> is_condensed(text@),
            parsed matches Some(board) ==> board.is_parse_of(text@),
    {
        let mut count: usize = 0;
        for c in it: text.chars()
            invariant
                count == it.index(),
                count <= 81,
                it.seq() == text@,
                forall|k: int| 0 <= k < count ==> is_cell_char(#[trigger] text@[k]),
        {
            if count == 81 || !(c == '.' || ('0' <= c && c <= '9')) {
                return None;
            }
            count += 1;
        }
        if count == 81 {
            Some(SudokuBoard::from_condensed(text))
        } else {
            None
        }
    }

    /// The values of row `row`, left to right.
    pub fn get_row(&self, row: usize) -> (values: [u8; 9])
        requires
            row < 9,
        ensures
            values@ == self.row(row as int),
    {
        self.board[row]
    }

    /// The values of column `col`, top to bottom.
    pub fn get_col(&self, col: usize) -> (values: [u8; 9])
        requires
            col < 9,
        ensures
            values@ == self.column(col as int),
    {
        let mut column = [0u8; 9];
        for i in 0..9usize
            invariant
                col < 9,
                forall|r: int| 0 <= r < i ==> column[r] == self.cell(r, col as int),
        {
            column[i] = self.board[i][col];
        }
        column
    }

    /// The values of the 3×3 square that contains cell `(row, col)`: the cells
    /// of rows `3 * (row / 3)` to `3 * (row / 3) + 2` and columns
    /// `3 * (col / 3)` to `3 * (col / 3) + 2`, scanned row by row.
    pub fn get_square(&self, row: usize, col: usize) -> (values: [u8; 9])
        requires
            row < 9,
            col < 9,
        ensures
            values@ == self.square(row as int, col as int),
            forall|i: int, j: int|
                3 * (row / 3) <= i < 3 * (row / 3) + 3 && 3 * (col / 3) <= j < 3 * (col / 3) + 3
                    ==> #[trigger] self.cell(i, j) == values[3 * (i - 3 * (row / 3)) + (j - 3 * (
                    col / 3))],
    {
        let mut square = [0u8; 9];
        let top: usize = row - row % 3;
        let left: usize = col - col % 3;
        let mut k: usize = 0;
        for i in top..top + 3
            invariant
                top == 3 * (row / 3),
                left == 3 * (col / 3),
                row < 9,
                col < 9,
                k == 3 * (i - top),
                forall|m: int| 0 <= m < k ==> square[m] == self.cell(top + m / 3, left + m % 3),
        {
            for j in left..left + 3
                invariant
                    top == 3 * (row / 3),
                    left == 3 * (col / 3),
                    row < 9,
                    col < 9,
                    top <= i < top + 3,
                    k == 3 * (i - top) + (j - left),
                    forall|m: int| 0 <= m < k ==> square[m] == self.cell(top + m / 3, left + m % 3),
            {
                square[k] = self.board[i][j];
                k += 1;
            }
        }
        assert forall|i: int, j: int|
            top <= i < top + 3 && left <= j < left + 3 implies #[trigger] self.cell(i, j)
            == square[3 * (i - top) + (j - left)] by {
            let m = 3 * (i - top) + (j - left);
            assert(m / 3 == i - top && m % 3 == j - left);
        }
        square
    }

    /// The nine squares, left to right and top to bottom.
    pub fn all_squares(&self) -> (squares: Vec<[u8; 9]>)
        ensures
            squares.len() == 9,
            forall|s: int| 0 <= s < 9 ==> squares[s]@ == self.square(3 * (s / 3), 3 * (s % 3)),
    {
        let mut squares: Vec<[u8; 9]> = Vec::new();
        for i in 0..3usize
            invariant
                squares.len() == 3 * i,
                forall|s: int|
                    0 <= s < squares.len() ==> squares[s]@ == self.square(3 * (s / 3), 3 * (s % 3)),
        {
            for j in 0..3usize
                invariant
                    i < 3,
                    squares.len() == 3 * i + j,
                    forall|s: int|
                        0 <= s < squares.len() ==> squares[s]@ == self.square(
                            3 * (s / 3),
                            3 * (s % 3),
                        ),
            {
                squares.push(self.get_square(3 * i, 3 * j));
            }
        }
        squares
    }
}

} // verus!
