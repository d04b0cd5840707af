//! Parsing the textual puzzle format.
//!
//! The first line is one blank, then one decimal digit per column giving
//! that column's required tent count. Each of the following lines is the
//! row's required count followed by exactly `dim` cells, one of `T`
//! (tree), `X` (tent), `.` (grass) or blank (undecided). The grid must be
//! square, and a single trailing line break is allowed.

use crate::grid::{Cell, State};
use crate::space::idx;
use vstd::prelude::*;

verus! {

/// Why an input text was rejected.
#[derive(Clone, Copy, Debug, PartialEq, Eq, Structural)]
pub enum ParseError {
    EmptyInput,
    BadHeader,
    BadDigit,
    BadCell,
    BadShape,
}

/// An ASCII decimal digit.
pub open spec fn is_digit(b: u8) -> bool {
    48 <= b <= 57
}

/// Value of an ASCII decimal digit.
pub open spec fn digit_val(b: u8) -> int {
    b - 48
}

/// A byte that renders a cell.
pub open spec fn is_cell_byte(b: u8) -> bool {
    b == 84 || b == 88 || b == 46 || b == 32
}

/// The cell a byte renders: `T`, `X`, `.` or a blank.
pub open spec fn cell_of(b: u8) -> Cell {
    if b == 84 {
        Cell::Tree
    } else if b == 88 {
        Cell::Tent
    } else if b == 46 {
        Cell::Grass
    } else {
        Cell::Empty
    }
}

/// Position of the first line break at or after `i`, or the length.
pub open spec fn line_end(s: Seq<u8>, i: int) -> int
    decreases s.len() - i,
{
    if i < 0 || i >= s.len() {
        s.len() as int
    } else if s[i] == 10 {
        i
    } else {
        line_end(s, i + 1)
    }
}

proof fn lemma_line_end_scan(s: Seq<u8>, i: int)
    requires
        0 <= i <= s.len(),
        forall|j: int| 0 <= j < i ==> s[j] != 10,
    ensures
        line_end(s, 0) == line_end(s, i),
    decreases i,
{
    if i > 0 {
        lemma_line_end_scan(s, i - 1);
    }
}

/// Flat position where data row `r` begins (at its leading line break).
pub open spec fn row_start(le: int, dim: int, r: int) -> int {
    le + r * (dim + 2)
}

/// The byte of cell `c` in data row `r`.
pub open spec fn cell_byte(s: Seq<u8>, le: int, dim: int, r: int, c: int) -> u8 {
    s[row_start(le, dim, r) + 2 + c]
}

/// The shape every accepted input has.
pub open spec fn well_formed(s: Seq<u8>) -> bool {
    let le = line_end(s, 0);
    let dim = le - 1;
    &&& s.len() >= 1
    &&& s[0] == 32
    &&& forall|i: int| 1 <= i < le ==> is_digit(s[i])
    &&& (s.len() == le + dim * (dim + 2) || (s.len() == le + dim * (dim + 2) + 1 && s[s.len()
        - 1] == 10))
    &&& forall|r: int| 0 <= r < dim ==> s[row_start(le, dim, r)] == 10
    &&& forall|r: int| 0 <= r < dim ==> is_digit(s[row_start(le, dim, r) + 1])
    &&& forall|r: int, c: int|
        0 <= r < dim && 0 <= c < dim ==> is_cell_byte(cell_byte(s, le, dim, r, c))
}

/// The board an accepted input denotes.
pub open spec fn parsed_ok(s: Seq<u8>, st: State) -> bool {
    let le = line_end(s, 0);
    let dim = le - 1;
    &&& st.wf()
    &&& st.dim == dim
    &&& forall|x: int| 0 <= x < dim ==> st.col_tents@[x] == digit_val(s[1 + x])
    &&& forall|r: int| 0 <= r < dim ==> st.row_tents@[r] == digit_val(s[row_start(le, dim, r) + 1])
    &&& forall|r: int, c: int|
        0 <= r < dim && 0 <= c < dim ==> st.cells@[idx(dim, c, r)] == cell_of(
            cell_byte(s, le, dim, r, c),
        )
}

/// Value of one ASCII digit, or the reason it is none.
pub fn parse_ascii_digit(c: u8) -> (r: Result<u8, ParseError>)
    ensures
        is_digit(c) ==> r == Ok::<u8, ParseError>((c - 48) as u8),
        !is_digit(c) ==> r == Err::<u8, ParseError>(ParseError::BadDigit),
{
    if 48 <= c && c <= 57 {
        Ok(c - 48)
    } else {
        Err(ParseError::BadDigit)
    }
}

impl Cell {
    /// The cell a byte renders, or the reason it renders none.
    pub fn from_byte(b: u8) -> (r: Result<Cell, ParseError>)
        ensures
            is_cell_byte(b) ==> r == Ok::<Cell, ParseError>(cell_of(b)),
            !is_cell_byte(b) ==> r == Err::<Cell, ParseError>(ParseError::BadCell),
    {
        if b == 84 {
            Ok(Cell::Tree)
        } else if b == 88 {
            Ok(Cell::Tent)
        } else if b == 46 {
            Ok(Cell::Grass)
        } else if b == 32 {
            Ok(Cell::Empty)
        } else {
            Err(ParseError::BadCell)
        }
    }
}

impl State {
    /// Parses an input text into a board. Accepts exactly the well-formed
    /// inputs and returns the board they denote.
    pub fn parse(input: &Vec<u8>) -> (r: Result<State, ParseError>)
        ensures
            match r {
                Ok(st) => well_formed(input@) && parsed_ok(input@, st),
                Err(_) => !well_formed(input@),
            },
            input@.len() == 0 ==> r == Err::<State, ParseError>(ParseError::EmptyInput),
            (r == Err::<State, ParseError>(ParseError::BadHeader)) <==> (input@.len() > 0
                && input@[0] != 32),
    {
        let n = input.len();
        if n == 0 {
            return Err(ParseError::EmptyInput);
        }
        if input[0] != 32 {
            return Err(ParseError::BadHeader);
        }
        // find the end of the header line
        let mut le: usize = 0;
        while le < n && input[le] != 10
            invariant
                n == input@.len(),
                le <= n,
                forall|j: int| 0 <= j < le ==> input@[j] != 10,
            decreases n - le,
        {
            le = le + 1;
        }
        proof {
            lemma_line_end_scan(input@, le as int);
            assert(line_end(input@, 0) == le);
        }
        let dim = le - 1;
        let ghost lei = le as int;
        let ghost dimi = dim as int;
        // the column requirements
        let mut col_tents: Vec<u8> = Vec::new();
        let mut i: usize = 1;
        while i < le
            invariant
                n == input@.len(),
                input@[0] == 32,
                1 <= i <= le,
                le <= n,
                dim == le - 1,
                line_end(input@, 0) == le,
                col_tents@.len() == i - 1,
                forall|j: int| 1 <= j < i ==> is_digit(input@[j]),
                forall|x: int| 0 <= x < i - 1 ==> col_tents@[x] == digit_val(input@[1 + x]),
            decreases le - i,
        {
            let b = input[i];
            if !(48 <= b && b <= 57) {
                proof {
                    if well_formed(input@) {
                        assert(is_digit(input@[i as int]));
                    }
                }
                return Err(ParseError::BadDigit);
            }
            col_tents.push(b - 48);
            i = i + 1;
        }
        // the data rows, each a line break, a digit and `dim` cells
        let mut row_tents: Vec<u8> = Vec::new();
        let mut cells: Vec<Cell> = Vec::new();
        let mut pos: usize = le;
        let mut r: usize = 0;
        while r < dim
            invariant
                n == input@.len(),
                input@[0] == 32,
                1 <= le <= n,
                dim == le - 1,
                lei == le as int,
                dimi == dim as int,
                line_end(input@, 0) == le,
                r <= dim,
                pos <= n,
                pos == lei + r * (dimi + 2),
                row_tents@.len() == r,
                cells@.len() == r * dimi,
                forall|rr: int| 0 <= rr < r ==> input@[row_start(lei, dimi, rr)] == 10,
                forall|rr: int| 0 <= rr < r ==> is_digit(input@[row_start(lei, dimi, rr) + 1]),
                forall|rr: int| 0 <= rr < r ==> row_tents@[rr] == digit_val(
                    input@[row_start(lei, dimi, rr) + 1],
                ),
                forall|rr: int, c: int|
                    0 <= rr < r && 0 <= c < dimi ==> is_cell_byte(
                        cell_byte(input@, lei, dimi, rr, c),
                    ),
                forall|rr: int, c: int|
                    0 <= rr < r && 0 <= c < dimi ==> cells@[idx(dimi, c, rr)] == cell_of(
                        cell_byte(input@, lei, dimi, rr, c),
                    ),
            decreases dim - r,
        {
            proof {
                assert((r + 1) * (dimi + 2) <= dimi * (dimi + 2)) by (nonlinear_arith)
                    requires
                        0 <= r as int + 1 <= dimi,
                ;
                assert(r as int * (dimi + 2) + (dimi + 2) == (r as int + 1) * (dimi + 2))
                    by (nonlinear_arith);
            }
            if pos >= n || input[pos] != 10 {
                proof {
                    if pos >= n {
                        lemma_too_short(input@, lei, dimi, r as int, n as int);
                    } else {
                        lemma_missing_newline(input@, lei, dimi, r as int);
                    }
                }
                return Err(ParseError::BadShape);
            }
            pos = pos + 1;
            if pos >= n {
                proof {
                    lemma_too_short(input@, lei, dimi, r as int, n as int);
                }
                return Err(ParseError::BadShape);
            }
            let b = input[pos];
            if !(48 <= b && b <= 57) {
                proof {
                    if well_formed(input@) {
                        assert(is_digit(input@[row_start(lei, dimi, r as int) + 1]));
                    }
                }
                return Err(ParseError::BadDigit);
            }
            row_tents.push(b - 48);
            pos = pos + 1;
            let mut c: usize = 0;
            while c < dim
                invariant
                    n == input@.len(),
                    input@[0] == 32,
                    1 <= le <= n,
                    dim == le - 1,
                    lei == le as int,
                    dimi == dim as int,
                    line_end(input@, 0) == le,
                    r < dim,
                    c <= dim,
                    pos <= n,
                    pos == row_start(lei, dimi, r as int) + 2 + c,
                    cells@.len() == r * dimi + c,
                    forall|cc: int|
                        0 <= cc < c ==> is_cell_byte(cell_byte(input@, lei, dimi, r as int, cc)),
                    forall|cc: int|
                        0 <= cc < c ==> cells@[r as int * dimi + cc] == cell_of(
                            cell_byte(input@, lei, dimi, r as int, cc),
                        ),
                    forall|rr: int, cc: int|
                        0 <= rr < r && 0 <= cc < dimi ==> is_cell_byte(
                            cell_byte(input@, lei, dimi, rr, cc),
                        ),
                    forall|rr: int, cc: int|
                        0 <= rr < r && 0 <= cc < dimi ==> cells@[idx(dimi, cc, rr)] == cell_of(
                            cell_byte(input@, lei, dimi, rr, cc),
                        ),
                decreases dim - c,
            {
                proof {
                    assert((r as int) * (dimi + 2) + (dimi + 2) <= dimi * (dimi + 2))
                        by (nonlinear_arith)
                        requires
                            0 <= r as int,
                            r as int + 1 <= dimi,
                    ;
                }
                if pos >= n {
                    proof {
                        lemma_too_short(input@, lei, dimi, r as int, n as int);
                    }
                    return Err(ParseError::BadShape);
                }
                let b = input[pos];
                if b == 10 {
                    // the row ends before its cells do
                    proof {
                        if well_formed(input@) {
                            assert(is_cell_byte(cell_byte(input@, lei, dimi, r as int, c as int)));
                        }
                    }
                    return Err(ParseError::BadShape);
                }
                let cell = match Cell::from_byte(b) {
                    Ok(cell) => cell,
                    Err(_) => {
                        proof {
                            if well_formed(input@) {
                                assert(is_cell_byte(cell_byte(input@, lei, dimi, r as int, c as int)));
                            }
                        }
                        return Err(ParseError::BadCell);
                    },
                };
                cells.push(cell);
                proof {
                    assert forall|rr: int, cc: int|
                        0 <= rr < r && 0 <= cc < dimi implies cells@[idx(dimi, cc, rr)] == cell_of(
                        cell_byte(input@, lei, dimi, rr, cc),
                    ) by {
                        assert(idx(dimi, cc, rr) < r as int * dimi) by (nonlinear_arith)
                            requires
                                0 <= cc < dimi,
                                0 <= rr < r as int,
                                idx(dimi, cc, rr) == cc + rr * dimi,
                        ;
                    }
                }
                pos = pos + 1;
                c = c + 1;
            }
            proof {
                assert(r as int * dimi + dimi == (r as int + 1) * dimi) by (nonlinear_arith);
            }
            r = r + 1;
        }
        // nothing may follow the last row but one optional line break
        proof {
            assert(pos == lei + dimi * (dimi + 2));
        }
        if pos < n {
            if !(pos + 1 == n && input[pos] == 10) {
                proof {
                    if well_formed(input@) {
                        assert(input@.len() == lei + dimi * (dimi + 2) || (input@.len() == lei + dimi * (
                        dimi + 2) + 1 && input@[input@.len() - 1] == 10));
                        assert(false);
                    }
                }
                return Err(ParseError::BadShape);
            }
        }
        let st = State { dim, cells, col_tents, row_tents };
        proof {
            assert(well_formed(input@));
            assert(parsed_ok(input@, st));
        }
        Ok(st)
    }
}

/// An input that ends inside data row `r` satisfies neither length the
/// shape allows.
proof fn lemma_too_short(s: Seq<u8>, le: int, dim: int, r: int, n: int)
    requires
        n == s.len(),
        1 <= le,
        dim == le - 1,
        0 <= r < dim,
        n < row_start(le, dim, r) + dim + 2,
        line_end(s, 0) == le,
    ensures
        !well_formed(s),
{
    assert((r + 1) * (dim + 2) <= dim * (dim + 2)) by (nonlinear_arith)
        requires
            0 <= r + 1 <= dim,
    ;
    assert(r * (dim + 2) + (dim + 2) == (r + 1) * (dim + 2)) by (nonlinear_arith);
    assert(n < le + dim * (dim + 2));
    if well_formed(s) {
        assert(s.len() == le + dim * (dim + 2) || (s.len() == le + dim * (dim + 2) + 1
            && s[s.len() - 1] == 10));
        assert(false);
    }
}

/// A data row that does not begin with a line break breaks the shape.
proof fn lemma_missing_newline(s: Seq<u8>, le: int, dim: int, r: int)
    requires
        1 <= le,
        dim == le - 1,
        0 <= r < dim,
        0 <= row_start(le, dim, r) < s.len(),
        s[row_start(le, dim, r)] != 10,
        line_end(s, 0) == le,
    ensures
        !well_formed(s),
{
    if well_formed(s) {
        assert(s[row_start(le, dim, r)] == 10);
        assert(false);
    }
}

} // verus!
