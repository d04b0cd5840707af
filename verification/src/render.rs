//! Rendering a board back to text, mirroring the input format: the column
//! counters on the first line, then one line per row with its counter and
//! its cells. The counters shown are the current (remaining) ones.

use crate::grid::{Cell, State};
use vstd::prelude::*;

verus! {

/// The byte a cell renders to: `T`, `X`, `.` or a blank.
pub open spec fn byte_of_cell(c: Cell) -> u8 {
    match c {
        Cell::Tree => 84,
        Cell::Tent => 88,
        Cell::Grass => 46,
        Cell::Empty => 32,
    }
}

/// The decimal digits of a counter value.
pub open spec fn dec_u8(v: int) -> Seq<u8> {
    if v < 10 {
        seq![(48 + v) as u8]
    } else if v < 100 {
        seq![(48 + v / 10) as u8, (48 + v % 10) as u8]
    } else {
        seq![(48 + v / 100) as u8, (48 + (v / 10) % 10) as u8, (48 + v % 10) as u8]
    }
}

/// The rendered column counters, first `n` of them.
pub open spec fn render_cols(v: Seq<u8>, n: int) -> Seq<u8>
    decreases n,
{
    if n <= 0 {
        Seq::empty()
    } else {
        render_cols(v, n - 1) + dec_u8(v[n - 1] as int)
    }
}

/// The first `n` rendered cells of row `y`.
pub open spec fn render_row(st: State, y: int, n: int) -> Seq<u8>
    decreases n,
{
    if n <= 0 {
        Seq::empty()
    } else {
        render_row(st, y, n - 1) + seq![byte_of_cell(st.cell(n - 1, y))]
    }
}

/// The first `ny` rendered data lines.
pub open spec fn render_rows(st: State, ny: int) -> Seq<u8>
    decreases ny,
{
    if ny <= 0 {
        Seq::empty()
    } else {
        render_rows(st, ny - 1) + seq![10u8] + dec_u8(st.row_tents@[ny - 1] as int) + render_row(
            st,
            ny - 1,
            st.dim as int,
        )
    }
}

/// The full rendering of a board.
pub open spec fn render_spec(st: State) -> Seq<u8> {
    seq![32u8] + render_cols(st.col_tents@, st.dim as int) + render_rows(st, st.dim as int)
}

impl Cell {
    /// The byte this cell renders to.
    pub fn to_byte(self) -> (b: u8)
        ensures
            b == byte_of_cell(self),
    {
        match self {
            Cell::Tree => 84,
            Cell::Tent => 88,
            Cell::Grass => 46,
            Cell::Empty => 32,
        }
    }
}

/// Appends the decimal digits of `v`.
fn push_dec(out: &mut Vec<u8>, v: u8)
    ensures
        final(out)@ == old(out)@ + dec_u8(v as int),
{
    if v < 10 {
        out.push(48 + v);
    } else if v < 100 {
        out.push(48 + v / 10);
        out.push(48 + v % 10);
    } else {
        out.push(48 + v / 100);
        out.push(48 + (v / 10) % 10);
        out.push(48 + v % 10);
    }
    proof {
        assert(out@ =~= old(out)@ + dec_u8(v as int));
    }
}

impl State {
    /// Renders the board, counters and cells, as the parser reads it.
    pub fn render(&self) -> (out: Vec<u8>)
        requires
            self.wf(),
        ensures
            out@ == render_spec(*self),
    {
        let dim = self.dim;
        let mut out: Vec<u8> = Vec::new();
        out.push(32);
        let mut x: usize = 0;
        while x < dim
            invariant
                self.wf(),
                dim == self.dim,
                x <= dim,
                out@ == seq![32u8] + render_cols(self.col_tents@, x as int),
            decreases dim - x,
        {
            push_dec(&mut out, self.col_tents[x]);
            proof {
                assert(out@ =~= seq![32u8] + render_cols(self.col_tents@, x as int + 1));
            }
            x = x + 1;
        }
        let mut y: usize = 0;
        while y < dim
            invariant
                self.wf(),
                dim == self.dim,
                y <= dim,
                out@ == seq![32u8] + render_cols(self.col_tents@, dim as int) + render_rows(
                    *self,
                    y as int,
                ),
            decreases dim - y,
        {
            out.push(10);
            push_dec(&mut out, self.row_tents[y]);
            let mut x: usize = 0;
            while x < dim
                invariant
                    self.wf(),
                    dim == self.dim,
                    y < dim,
                    x <= dim,
                    out@ == seq![32u8] + render_cols(self.col_tents@, dim as int) + render_rows(
                        *self,
                        y as int,
                    ) + seq![10u8] + dec_u8(self.row_tents@[y as int] as int) + render_row(
                        *self,
                        y as int,
                        x as int,
                    ),
                decreases dim - x,
            {
                let b = self.get_cell(x, y).to_byte();
                out.push(b);
                proof {
                    assert(out@ =~= seq![32u8] + render_cols(self.col_tents@, dim as int)
                        + render_rows(*self, y as int) + seq![10u8] + dec_u8(
                        self.row_tents@[y as int] as int,
                    ) + render_row(*self, y as int, x as int + 1));
                }
                x = x + 1;
            }
            proof {
                assert(out@ =~= seq![32u8] + render_cols(self.col_tents@, dim as int) + render_rows(
                    *self,
                    y as int + 1,
                ));
            }
            y = y + 1;
        }
        out
    }
}

} // verus!
