//! A 9x9 Sudoku puzzle: parsing from an 81-character line, a backtracking solver, and printing.

use vstd::prelude::*;
use crate::text::{chars_of, trim_bounds, trimmed, decimal, push_decimal, push_char, char_of_digit, digit_char};

verus! {

/// Cell `(r, c)` of a grid.
pub open spec fn at(g: [[u8; 9]; 9], r: int, c: int) -> u8 {
    g[r][c]
}

pub open spec fn in_grid(r: int, c: int) -> bool {
    0 <= r < 9 && 0 <= c < 9
}

/// Two distinct cells that share a row, a column or a 3x3 box.
pub open spec fn peers(r1: int, c1: int, r2: int, c2: int) -> bool {
    &&& in_grid(r1, c1)
    &&& in_grid(r2, c2)
    &&& !(r1 == r2 && c1 == c2)
    &&& (r1 == r2 || c1 == c2 || (r1 / 3 == r2 / 3 && c1 / 3 == c2 / 3))
}

/// Cell `(r, c)` comes before `(row, col)` in row-major order.
pub open spec fn before(r: int, c: int, row: int, col: int) -> bool {
    r < row || (r == row && c < col)
}

/// Every cell holds 0 (empty) or a digit 1..=9.
pub open spec fn cells_at_most_9(g: [[u8; 9]; 9]) -> bool {
    forall|r: int, c: int| in_grid(r, c) ==> #[trigger] at(g, r, c) <= 9
}

/// `f` solves the puzzle `p`: every cell holds a digit, the given digits of `p` are kept,
/// and every digit written into an empty cell differs from the digits of all its peers.
pub open spec fn is_solution(p: [[u8; 9]; 9], f: [[u8; 9]; 9]) -> bool {
    forall|r: int, c: int| #![trigger at(f, r, c)] in_grid(r, c) ==> {
        &&& 1 <= at(f, r, c) <= 9
        &&& at(p, r, c) != 0 ==> at(f, r, c) == at(p, r, c)
        &&& at(p, r, c) == 0 ==> forall|r2: int, c2: int| #[trigger] peers(r, c, r2, c2) ==> at(f, r2, c2) != at(f, r, c)
    }
}

/// `f` and `g` agree on every cell before `(row, col)`.
pub open spec fn agrees_before(f: [[u8; 9]; 9], g: [[u8; 9]; 9], row: int, col: int) -> bool {
    forall|r: int, c: int| in_grid(r, c) && before(r, c, row, col) ==> #[trigger] at(f, r, c) == at(g, r, c)
}

/// `digit` appears nowhere in the row, the column or the box of `(row, col)`.
pub open spec fn fits(g: [[u8; 9]; 9], row: int, col: int, digit: u8) -> bool {
    forall|r: int, c: int| in_grid(r, c) && (r == row || c == col || (r / 3 == row / 3 && c / 3 == col / 3))
        ==> #[trigger] at(g, r, c) != digit
}

/// The search state at `(row, col)`: cells before it are filled consistently, cells from it on
/// are still those of the puzzle `p`.
pub open spec fn partial_ok(p: [[u8; 9]; 9], g: [[u8; 9]; 9], row: int, col: int) -> bool {
    &&& cells_at_most_9(p)
    &&& forall|r: int, c: int| #![trigger at(g, r, c)] in_grid(r, c) ==> {
        &&& before(r, c, row, col) ==> 1 <= at(g, r, c) <= 9
        &&& !before(r, c, row, col) ==> at(g, r, c) == at(p, r, c)
        &&& at(p, r, c) != 0 ==> at(g, r, c) == at(p, r, c)
        &&& (before(r, c, row, col) && at(p, r, c) == 0) ==> forall|r2: int, c2: int| #[trigger] peers(r, c, r2, c2) ==> at(g, r2, c2) != at(g, r, c)
    }
}

/// At the first cell from `(row, col)` on, in row-major order, where `f` and `g` differ, `f`
/// holds the smaller digit.
pub open spec fn smaller_from(f: [[u8; 9]; 9], g: [[u8; 9]; 9], row: int, col: int) -> bool {
    exists|r: int, c: int| in_grid(r, c) && !before(r, c, row, col) && agrees_before(f, g, r, c)
        && #[trigger] at(f, r, c) < at(g, r, c)
}

/// `f` comes before `g` when both are read row by row: at the first cell where they differ,
/// `f` holds the smaller digit.
pub open spec fn lex_smaller(f: [[u8; 9]; 9], g: [[u8; 9]; 9]) -> bool {
    smaller_from(f, g, 0, 0)
}

/// The cell a puzzle character stands for: `'1'..='9'` the digit, anything else empty.
pub open spec fn cell_of_char(c: char) -> u8 {
    if 49 <= c as u32 <= 57 { (c as u32 - 48) as u8 } else { 0 }
}

/// The character a cell prints as: its digit, or `'.'` when empty.
pub open spec fn char_of_cell(d: u8) -> char {
    if d == 0 { '.' } else { digit_char(d as nat) }
}

/// The message of a line whose trimmed length is not 81.
pub open spec fn length_error(len: nat) -> Seq<char> {
    "Invalid Sudoku string length: "@ + decimal(len)
}

/// A Sudoku grid; 0 marks an empty cell, 1..=9 a digit.
#[derive(Debug, Clone, Copy)]
pub struct SudokuPuzzle {
    grid: [[u8; 9]; 9],
}

impl SudokuPuzzle {
    /// The grid, row by row.
    pub closed spec fn cells(&self) -> [[u8; 9]; 9] {
        self.grid
    }

    /// Every cell is empty or holds a digit.
    pub open spec fn well_formed(&self) -> bool {
        cells_at_most_9(self.cells())
    }

    /// Whether `digit` may be written at `(row, col)`: it is absent from that row, column and box.
    pub fn is_valid(&self, row: usize, col: usize, digit: u8) -> (ok: bool)
        requires
            row < 9,
            col < 9,
        ensures
            ok == fits(self.cells(), row as int, col as int, digit),
    {
        let mut c: usize = 0;
        while c < 9
            invariant
                row < 9,
                c <= 9,
                forall|cc: int| 0 <= cc < c ==> at(self.grid, row as int, cc) != digit,
            decreases 9 - c,
        {
            if self.grid[row][c] == digit {
                assert(at(self.grid, row as int, c as int) == digit);
                return false;
            }
            c += 1;
        }
        let mut r: usize = 0;
        while r < 9
            invariant
                col < 9,
                r <= 9,
                forall|rr: int| 0 <= rr < r ==> at(self.grid, rr, col as int) != digit,
            decreases 9 - r,
        {
            if self.grid[r][col] == digit {
                assert(at(self.grid, r as int, col as int) == digit);
                return false;
            }
            r += 1;
        }
        let box_row = (row / 3) * 3;
        let box_col = (col / 3) * 3;
        let mut r: usize = box_row;
        while r < box_row + 3
            invariant
                row < 9,
                col < 9,
                box_row == (row / 3) * 3,
                box_col == (col / 3) * 3,
                box_row <= r <= box_row + 3,
                forall|rr: int, cc: int| box_row <= rr < r && box_col <= cc < box_col + 3 ==> at(self.grid, rr, cc) != digit,
            decreases box_row + 3 - r,
        {
            let mut c: usize = box_col;
            while c < box_col + 3
                invariant
                    row < 9,
                    col < 9,
                    box_row == (row / 3) * 3,
                    box_col == (col / 3) * 3,
                    box_row <= r < box_row + 3,
                    box_col <= c <= box_col + 3,
                    forall|rr: int, cc: int| box_row <= rr < r && box_col <= cc < box_col + 3 ==> at(self.grid, rr, cc) != digit,
                    forall|cc: int| box_col <= cc < c ==> at(self.grid, r as int, cc) != digit,
                decreases box_col + 3 - c,
            {
                if self.grid[r][c] == digit {
                    assert(at(self.grid, r as int, c as int) == digit);
                    assert(r as int / 3 == row as int / 3 && c as int / 3 == col as int / 3);
                    return false;
                }
                c += 1;
            }
            r += 1;
        }
        assert forall|rr: int, cc: int| in_grid(rr, cc) && (rr == row || cc == col || (rr / 3 == row / 3 && cc / 3 == col / 3))
            implies #[trigger] at(self.grid, rr, cc) != digit by {
            if rr != row && cc != col {
                assert(box_row <= rr < box_row + 3);
                assert(box_col <= cc < box_col + 3);
            }
        }
        true
    }

    /// Solves the puzzle in place by backtracking over the cells in row-major order, trying
    /// the digits in increasing order. On success the grid is the first solution read row by
    /// row; on failure it is left as it was, and no solution exists.
    pub fn solve(&mut self) -> (solved: bool)
        requires
            old(self).well_formed(),
        ensures
            final(self).well_formed(),
            solved == exists|f: [[u8; 9]; 9]| is_solution(old(self).cells(), f),
            solved ==> is_solution(old(self).cells(), final(self).cells()),
            solved ==> forall|f: [[u8; 9]; 9]| is_solution(old(self).cells(), f) ==> !lex_smaller(f, final(self).cells()),
            !solved ==> final(self).cells() == old(self).cells(),
    {
        let ghost p = self.grid;
        let solved = self.backtrack(0, 0, Ghost(p));
        proof {
            if solved {
                assert(is_solution(p, self.grid));
                assert forall|f: [[u8; 9]; 9]| is_solution(p, f) implies !lex_smaller(f, self.grid) by {
                    assert(agrees_before(f, p, 0, 0));
                }
            } else {
                assert forall|f: [[u8; 9]; 9]| !is_solution(p, f) by {
                    if is_solution(p, f) {
                        assert(agrees_before(f, p, 0, 0));
                    }
                }
            }
        }
        solved
    }

    /// Fills the cells from `(row, col)` on. Returns whether a solution of `p` agreeing with
    /// the grid on the earlier cells exists; if so the grid holds one, else the grid is unchanged.
    pub(crate) fn backtrack(&mut self, row: usize, col: usize, Ghost(p): Ghost<[[u8; 9]; 9]>) -> (solved: bool)
        requires
            row <= 9,
            col < 9,
            row == 9 ==> col == 0,
            partial_ok(p, old(self).cells(), row as int, col as int),
        ensures
            solved ==> is_solution(p, final(self).cells()) && agrees_before(final(self).cells(), old(self).cells(), row as int, col as int),
            solved ==> forall|f: [[u8; 9]; 9]| is_solution(p, f) && agrees_before(f, old(self).cells(), row as int, col as int)
                ==> !smaller_from(f, final(self).cells(), row as int, col as int),
            !solved ==> final(self).cells() == old(self).cells(),
            !solved ==> forall|f: [[u8; 9]; 9]| is_solution(p, f) ==> !agrees_before(f, old(self).cells(), row as int, col as int),
        decreases 81 - (row * 9 + col),
    {
        let ghost g0 = self.grid;
        if row == 9 {
            proof {
                assert forall|f: [[u8; 9]; 9]| is_solution(p, f) && agrees_before(f, g0, row as int, col as int)
                    implies !smaller_from(f, g0, row as int, col as int) by {
                    if smaller_from(f, g0, row as int, col as int) {
                        let (r, c) = choose|r: int, c: int| in_grid(r, c) && !before(r, c, row as int, col as int)
                            && agrees_before(f, g0, r, c) && #[trigger] at(f, r, c) < at(g0, r, c);
                        assert(in_grid(r, c));
                    }
                }
            }
            return true;
        }
        let next_row = if col == 8 { row + 1 } else { row };
        let next_col = if col == 8 { 0 } else { col + 1 };
        if self.grid[row][col] != 0 {
            let solved = self.backtrack(next_row, next_col, Ghost(p));
            proof {
                if !solved {
                    assert forall|f: [[u8; 9]; 9]| is_solution(p, f) implies !agrees_before(f, g0, row as int, col as int) by {
                        if agrees_before(f, g0, row as int, col as int) {
                            assert(at(f, row as int, col as int) == at(p, row as int, col as int));
                            assert(agrees_before(f, g0, next_row as int, next_col as int));
                        }
                    }
                } else {
                    let fin = self.grid;
                    assert forall|f: [[u8; 9]; 9]| is_solution(p, f) && agrees_before(f, g0, row as int, col as int)
                        implies !smaller_from(f, fin, row as int, col as int) by {
                        assert(at(g0, row as int, col as int) == at(p, row as int, col as int));
                        assert(at(p, row as int, col as int) != 0);
                        assert(1 <= at(f, row as int, col as int) <= 9);
                        assert(at(f, row as int, col as int) == at(p, row as int, col as int));
                        assert(agrees_before(f, g0, next_row as int, next_col as int));
                        if smaller_from(f, fin, row as int, col as int) {
                            let (r, c) = choose|r: int, c: int| in_grid(r, c) && !before(r, c, row as int, col as int)
                                && agrees_before(f, fin, r, c) && #[trigger] at(f, r, c) < at(fin, r, c);
                            if r == row && c == col {
                                assert(at(fin, r, c) == at(g0, r, c));
                            } else {
                                assert(!before(r, c, next_row as int, next_col as int));
                                assert(smaller_from(f, fin, next_row as int, next_col as int));
                            }
                        }
                    }
                }
            }
            return solved;
        }
        let mut digit: u8 = 1;
        while digit <= 9
            invariant
                row < 9,
                col < 9,
                next_row as int * 9 + next_col as int == row as int * 9 + col as int + 1,
                next_row <= 9,
                next_col < 9,
                next_row == 9 ==> next_col == 0,
                1 <= digit <= 10,
                self.grid == g0,
                old(self).grid == g0,
                at(g0, row as int, col as int) == 0,
                partial_ok(p, g0, row as int, col as int),
                forall|f: [[u8; 9]; 9]| is_solution(p, f) && agrees_before(f, g0, row as int, col as int)
                    ==> #[trigger] at(f, row as int, col as int) >= digit,
            decreases 10 - digit,
        {
            if self.is_valid(row, col, digit) {
                self.grid[row][col] = digit;
                let ghost g1 = self.grid;
                proof {
                    assert forall|r: int, c: int| in_grid(r, c) && !(r == row && c == col) implies
                        #[trigger] at(g1, r, c) == at(g0, r, c) by {}
                    assert(at(g1, row as int, col as int) == digit);
                    assert(partial_ok(p, g1, next_row as int, next_col as int));
                }
                if self.backtrack(next_row, next_col, Ghost(p)) {
                    proof {
                        let fin = self.grid;
                        assert forall|r: int, c: int| in_grid(r, c) && before(r, c, row as int, col as int)
                            implies #[trigger] at(fin, r, c) == at(g0, r, c) by {
                            assert(before(r, c, next_row as int, next_col as int));
                            assert(at(fin, r, c) == at(g1, r, c));
                        }
                        assert(at(fin, row as int, col as int) == digit) by {
                            assert(before(row as int, col as int, next_row as int, next_col as int));
                        }
                        assert forall|f: [[u8; 9]; 9]| is_solution(p, f) && agrees_before(f, g0, row as int, col as int)
                            implies !smaller_from(f, fin, row as int, col as int) by {
                            assert(at(f, row as int, col as int) >= digit);
                            if smaller_from(f, fin, row as int, col as int) {
                                let (r, c) = choose|r: int, c: int| in_grid(r, c) && !before(r, c, row as int, col as int)
                                    && agrees_before(f, fin, r, c) && #[trigger] at(f, r, c) < at(fin, r, c);
                                if r == row && c == col {
                                    assert(false);
                                } else {
                                    assert(before(row as int, col as int, r, c));
                                    assert(at(f, row as int, col as int) == at(fin, row as int, col as int));
                                    assert(agrees_before(f, g1, next_row as int, next_col as int)) by {
                                        assert forall|r2: int, c2: int| in_grid(r2, c2) && before(r2, c2, next_row as int, next_col as int)
                                            implies #[trigger] at(f, r2, c2) == at(g1, r2, c2) by {
                                            if r2 == row && c2 == col {
                                            } else {
                                                assert(before(r2, c2, row as int, col as int));
                                            }
                                        }
                                    }
                                    assert(!before(r, c, next_row as int, next_col as int));
                                    assert(smaller_from(f, fin, next_row as int, next_col as int));
                                }
                            }
                        }
                    }
                    return true;
                }
                self.grid[row][col] = 0;
                proof {
                    assert(self.grid[row as int] =~= g0[row as int]);
                    assert(self.grid =~= g0);
                    assert forall|f: [[u8; 9]; 9]| is_solution(p, f) && agrees_before(f, g0, row as int, col as int)
                        implies #[trigger] at(f, row as int, col as int) >= digit + 1 by {
                        if at(f, row as int, col as int) == digit {
                            assert(agrees_before(f, g1, next_row as int, next_col as int));
                        }
                    }
                }
            } else {
                proof {
                    assert forall|f: [[u8; 9]; 9]| is_solution(p, f) && agrees_before(f, g0, row as int, col as int)
                        implies #[trigger] at(f, row as int, col as int) >= digit + 1 by {
                        if at(f, row as int, col as int) == digit {
                            let (r, c) = choose|r: int, c: int| in_grid(r, c)
                                && (r == row || c == col || (r / 3 == row / 3 && c / 3 == col / 3))
                                && #[trigger] at(g0, r, c) == digit;
                            assert(peers(row as int, col as int, r, c));
                            assert(at(p, row as int, col as int) == 0);
                            if before(r, c, row as int, col as int) {
                                assert(at(f, r, c) == digit);
                            } else {
                                assert(at(p, r, c) == digit);
                                assert(at(f, r, c) == digit);
                            }
                        }
                    }
                }
            }
            digit += 1;
        }
        proof {
            assert forall|f: [[u8; 9]; 9]| is_solution(p, f) implies !agrees_before(f, g0, row as int, col as int) by {
                if agrees_before(f, g0, row as int, col as int) {
                    assert(at(f, row as int, col as int) >= 10);
                    assert(in_grid(row as int, col as int));
                }
            }
        }
        false
    }

    /// Parses a puzzle from one line: after trimming white space it must hold exactly 81
    /// characters, read row by row; `'1'..='9'` are digits and any other character is empty.
    pub fn from_string(line: &str) -> (res: Result<SudokuPuzzle, String>)
        ensures
            res is Ok <==> trimmed(line@).len() == 81,
            res matches Ok(p) ==> p.well_formed() && forall|r: int, c: int| in_grid(r, c)
                ==> #[trigger] at(p.cells(), r, c) == cell_of_char(trimmed(line@)[r * 9 + c]),
            res matches Err(e) ==> e@ == length_error(trimmed(line@).len()),
    {
        let chars = chars_of(line);
        let (lo, hi) = trim_bounds(&chars);
        let ghost t = trimmed(line@);
        if hi - lo != 81 {
            let mut msg = String::new();
            let prefix = "Invalid Sudoku string length: ";
            for ch in it: prefix.chars()
                invariant
                    msg@ == it.seq().take(it.index() as int),
                    it.seq() == prefix@,
            {
                push_char(&mut msg, ch);
            }
            push_decimal(&mut msg, hi - lo);
            return Err(msg);
        }
        let mut grid: [[u8; 9]; 9] = [[0u8; 9]; 9];
        let mut r: usize = 0;
        while r < 9
            invariant
                lo <= hi <= chars@.len(),
                hi - lo == 81,
                chars@.subrange(lo as int, hi as int) == t,
                r <= 9,
                forall|rr: int, cc: int| in_grid(rr, cc) && rr < r ==> #[trigger] at(grid, rr, cc) == cell_of_char(t[rr * 9 + cc]),
            decreases 9 - r,
        {
            let mut c: usize = 0;
            while c < 9
                invariant
                    lo <= hi <= chars@.len(),
                    hi - lo == 81,
                    chars@.subrange(lo as int, hi as int) == t,
                    r < 9,
                    c <= 9,
                    forall|rr: int, cc: int| in_grid(rr, cc) && rr < r ==> #[trigger] at(grid, rr, cc) == cell_of_char(t[rr * 9 + cc]),
                    forall|cc: int| 0 <= cc < c ==> #[trigger] at(grid, r as int, cc) == cell_of_char(t[r * 9 + cc]),
                decreases 9 - c,
            {
                let ch = chars[lo + r * 9 + c];
                assert(ch == t[r * 9 + c]);
                let u = ch as u32;
                let d: u8 = if 49 <= u && u <= 57 { (u - 48) as u8 } else { 0 };
                assert(d == cell_of_char(ch));
                let ghost pre = grid;
                grid[r][c] = d;
                assert forall|rr: int, cc: int| in_grid(rr, cc) && !(rr == r && cc == c) implies
                    #[trigger] at(grid, rr, cc) == at(pre, rr, cc) by {}
                assert(at(grid, r as int, c as int) == d);
                c += 1;
            }
            r += 1;
        }
        Ok(SudokuPuzzle { grid })
    }

    /// The grid as one line of 81 characters, row by row: digits as themselves, empty cells as `'.'`.
    pub fn to_string(&self) -> (s: String)
        requires
            self.well_formed(),
        ensures
            s@.len() == 81,
            forall|i: int| 0 <= i < 81 ==> #[trigger] s@[i] == char_of_cell(at(self.cells(), i / 9, i % 9)),
    {
        let mut result = String::new();
        let mut r: usize = 0;
        while r < 9
            invariant
                self.well_formed(),
                r <= 9,
                result@.len() == r * 9,
                forall|i: int| 0 <= i < r * 9 ==> #[trigger] result@[i] == char_of_cell(at(self.grid, i / 9, i % 9)),
            decreases 9 - r,
        {
            let mut c: usize = 0;
            while c < 9
                invariant
                    self.well_formed(),
                    r < 9,
                    c <= 9,
                    result@.len() == r * 9 + c,
                    forall|i: int| 0 <= i < r * 9 + c ==> #[trigger] result@[i] == char_of_cell(at(self.grid, i / 9, i % 9)),
                decreases 9 - c,
            {
                let digit = self.grid[r][c];
                assert(digit <= 9) by {
                    assert(at(self.grid, r as int, c as int) <= 9);
                }
                let ch = if digit == 0 { '.' } else { char_of_digit(digit) };
                let ghost before = result@;
                push_char(&mut result, ch);
                assert forall|i: int| 0 <= i < r * 9 + c + 1 implies #[trigger] result@[i] == char_of_cell(at(self.grid, i / 9, i % 9)) by {
                    if i < r * 9 + c {
                        assert(result@[i] == before[i]);
                    } else {
                        assert(i / 9 == r as int && i % 9 == c as int);
                    }
                }
                c += 1;
            }
            r += 1;
        }
        result
    }
}

} // verus!
