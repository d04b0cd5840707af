//! What it means for a board to be solved, and the runtime check for it.
//!
//! A solved board has no undecided cell, has consumed every row and column
//! requirement exactly, gives every tree at least one orthogonally adjacent
//! tent and every tent at least one orthogonally adjacent tree, and keeps
//! tents apart: no tent has another tent among its eight surrounding cells.
//! Together with the exact counts this balances tents against trees; the
//! check does not compute the one-to-one pairing itself, which may assign
//! a tent more than one adjacent tree.

use crate::grid::{Cell, State};
use crate::space::{idx, lemma_flat_decompose, lemma_idx_bounds, on_grid};
use vstd::prelude::*;

verus! {

/// Number of orthogonal neighbours of `(x, y)` holding a cell of kind `c`.
pub open spec fn orth_cnt(s: Seq<Cell>, dim: int, x: int, y: int, c: Cell) -> int {
    (if x > 0 && s[idx(dim, x - 1, y)] == c {
        1int
    } else {
        0int
    }) + (if x + 1 < dim && s[idx(dim, x + 1, y)] == c {
        1int
    } else {
        0int
    }) + (if y > 0 && s[idx(dim, x, y - 1)] == c {
        1int
    } else {
        0int
    }) + (if y + 1 < dim && s[idx(dim, x, y + 1)] == c {
        1int
    } else {
        0int
    })
}

/// Some orthogonal neighbour of `(x, y)` holds a tree.
pub open spec fn tree_adjacent(s: Seq<Cell>, dim: int, x: int, y: int) -> bool {
    orth_cnt(s, dim, x, y, Cell::Tree) >= 1
}

/// `(x2, y2)` is one of the eight cells surrounding `(x1, y1)`.
pub open spec fn king_close(x1: int, y1: int, x2: int, y2: int) -> bool {
    &&& !(x1 == x2 && y1 == y2)
    &&& -1 <= x1 - x2 <= 1
    &&& -1 <= y1 - y2 <= 1
}

/// No cell surrounding `(x, y)` holds a tent.
pub open spec fn tent_clear(s: Seq<Cell>, dim: int, x: int, y: int) -> bool {
    forall|x2: int, y2: int|
        on_grid(dim, x2, y2) && king_close(x, y, x2, y2) ==> s[idx(dim, x2, y2)] != Cell::Tent
}

/// No two tents on the board are mutually adjacent, diagonals included.
pub open spec fn no_adjacent_tents(s: Seq<Cell>, dim: int) -> bool {
    forall|x: int, y: int|
        on_grid(dim, x, y) && s[idx(dim, x, y)] == Cell::Tent ==> tent_clear(s, dim, x, y)
}

/// A surrounding tent refutes `tent_clear`.
proof fn lemma_tent_witness(s: Seq<Cell>, dim: int, x: int, y: int, xw: int, yw: int)
    requires
        on_grid(dim, xw, yw),
        king_close(x, y, xw, yw),
        s[idx(dim, xw, yw)] == Cell::Tent,
    ensures
        !tent_clear(s, dim, x, y),
{
}

/// All the obligations of a single cell of a solved board.
pub open spec fn cell_ok(st: State, x: int, y: int) -> bool {
    let s = st.cells@;
    let dim = st.dim as int;
    &&& s[idx(dim, x, y)] != Cell::Empty
    &&& (s[idx(dim, x, y)] == Cell::Tree ==> orth_cnt(s, dim, x, y, Cell::Tent) >= 1)
    &&& (s[idx(dim, x, y)] == Cell::Tent ==> orth_cnt(s, dim, x, y, Cell::Tree) >= 1
        && tent_clear(s, dim, x, y))
}

/// The board is completely and correctly solved.
pub open spec fn solved_spec(st: State) -> bool {
    &&& forall|i: int| 0 <= i < st.cells@.len() ==> st.cells@[i] != Cell::Empty
    &&& forall|y: int| 0 <= y < st.dim ==> st.row_tents@[y] == 0
    &&& forall|x: int| 0 <= x < st.dim ==> st.col_tents@[x] == 0
    &&& forall|x: int, y: int| on_grid(st.dim as int, x, y) ==> cell_ok(st, x, y)
}

/// A solved board satisfies the tree/tent pairing, the tent separation and
/// the exhaustion of the requirement counters.
pub proof fn lemma_solved_parts(st: State)
    requires
        st.wf(),
        solved_spec(st),
    ensures
        no_adjacent_tents(st.cells@, st.dim as int),
        forall|x: int, y: int|
            on_grid(st.dim as int, x, y) && st.cells@[idx(st.dim as int, x, y)] == Cell::Tree
                ==> orth_cnt(st.cells@, st.dim as int, x, y, Cell::Tent) >= 1,
        forall|x: int, y: int|
            on_grid(st.dim as int, x, y) && st.cells@[idx(st.dim as int, x, y)] == Cell::Tent
                ==> orth_cnt(st.cells@, st.dim as int, x, y, Cell::Tree) >= 1,
{
    assert forall|x: int, y: int|
        on_grid(st.dim as int, x, y) && st.cells@[idx(st.dim as int, x, y)]
            == Cell::Tent implies tent_clear(st.cells@, st.dim as int, x, y) && orth_cnt(
        st.cells@,
        st.dim as int,
        x,
        y,
        Cell::Tree,
    ) >= 1 by {
        assert(cell_ok(st, x, y));
    }
    assert forall|x: int, y: int|
        on_grid(st.dim as int, x, y) && st.cells@[idx(st.dim as int, x, y)]
            == Cell::Tree implies orth_cnt(st.cells@, st.dim as int, x, y, Cell::Tent) >= 1 by {
        assert(cell_ok(st, x, y));
    }
}

impl State {
    /// Counts the orthogonal neighbours of `(x, y)` holding a cell of kind `c`.
    pub fn orth_count(&self, x: usize, y: usize, c: Cell) -> (r: u8)
        requires
            self.wf(),
            x < self.dim,
            y < self.dim,
        ensures
            r == orth_cnt(self.cells@, self.dim as int, x as int, y as int, c),
    {
        let mut r: u8 = 0;
        if x > 0 && self.get_cell(x - 1, y) == c {
            r = r + 1;
        }
        if x + 1 < self.dim && self.get_cell(x + 1, y) == c {
            r = r + 1;
        }
        if y > 0 && self.get_cell(x, y - 1) == c {
            r = r + 1;
        }
        if y + 1 < self.dim && self.get_cell(x, y + 1) == c {
            r = r + 1;
        }
        r
    }

    /// Whether no cell surrounding `(x, y)` holds a tent.
    fn tent_clear_at(&self, x: usize, y: usize) -> (r: bool)
        requires
            self.wf(),
            x < self.dim,
            y < self.dim,
        ensures
            r == tent_clear(self.cells@, self.dim as int, x as int, y as int),
    {
        let dim = self.dim;
        if x > 0 && self.get_cell(x - 1, y) == Cell::Tent {
            proof {
                lemma_tent_witness(self.cells@, dim as int, x as int, y as int, x as int - 1, y as int);
            }
            return false;
        }
        if x + 1 < dim && self.get_cell(x + 1, y) == Cell::Tent {
            proof {
                lemma_tent_witness(self.cells@, dim as int, x as int, y as int, x as int + 1, y as int);
            }
            return false;
        }
        if y > 0 && self.get_cell(x, y - 1) == Cell::Tent {
            proof {
                lemma_tent_witness(self.cells@, dim as int, x as int, y as int, x as int, y as int - 1);
            }
            return false;
        }
        if y + 1 < dim && self.get_cell(x, y + 1) == Cell::Tent {
            proof {
                lemma_tent_witness(self.cells@, dim as int, x as int, y as int, x as int, y as int + 1);
            }
            return false;
        }
        if x > 0 && y > 0 && self.get_cell(x - 1, y - 1) == Cell::Tent {
            proof {
                lemma_tent_witness(self.cells@, dim as int, x as int, y as int, x as int - 1, y as int - 1);
            }
            return false;
        }
        if x > 0 && y + 1 < dim && self.get_cell(x - 1, y + 1) == Cell::Tent {
            proof {
                lemma_tent_witness(self.cells@, dim as int, x as int, y as int, x as int - 1, y as int + 1);
            }
            return false;
        }
        if x + 1 < dim && y > 0 && self.get_cell(x + 1, y - 1) == Cell::Tent {
            proof {
                lemma_tent_witness(self.cells@, dim as int, x as int, y as int, x as int + 1, y as int - 1);
            }
            return false;
        }
        if x + 1 < dim && y + 1 < dim && self.get_cell(x + 1, y + 1) == Cell::Tent {
            proof {
                lemma_tent_witness(self.cells@, dim as int, x as int, y as int, x as int + 1, y as int + 1);
            }
            return false;
        }
        proof {
            assert forall|x2: int, y2: int|
                on_grid(dim as int, x2, y2) && king_close(
                    x as int,
                    y as int,
                    x2,
                    y2,
                ) implies self.cells@[idx(dim as int, x2, y2)] != Cell::Tent by {
                assert(x2 == x - 1 || x2 == x as int || x2 == x + 1);
                assert(y2 == y - 1 || y2 == y as int || y2 == y + 1);
            }
        }
        true
    }

    /// Decides whether the board is completely and correctly solved.
    pub fn is_solved(&self) -> (r: bool)
        requires
            self.wf(),
        ensures
            r == solved_spec(*self),
    {
        let dim = self.dim;
        let mut y: usize = 0;
        while y < dim
            invariant
                self.wf(),
                dim == self.dim,
                y <= dim,
                forall|yy: int| 0 <= yy < y ==> self.row_tents@[yy] == 0,
            decreases dim - y,
        {
            if self.row_tents[y] != 0 {
                return false;
            }
            y = y + 1;
        }
        let mut x: usize = 0;
        while x < dim
            invariant
                self.wf(),
                dim == self.dim,
                x <= dim,
                forall|yy: int| 0 <= yy < dim ==> self.row_tents@[yy] == 0,
                forall|xx: int| 0 <= xx < x ==> self.col_tents@[xx] == 0,
            decreases dim - x,
        {
            if self.col_tents[x] != 0 {
                return false;
            }
            x = x + 1;
        }
        let mut y: usize = 0;
        while y < dim
            invariant
                self.wf(),
                dim == self.dim,
                y <= dim,
                forall|yy: int| 0 <= yy < dim ==> self.row_tents@[yy] == 0,
                forall|xx: int| 0 <= xx < dim ==> self.col_tents@[xx] == 0,
                forall|xx: int, yy: int|
                    on_grid(dim as int, xx, yy) && yy < y ==> cell_ok(*self, xx, yy),
            decreases dim - y,
        {
            let mut x: usize = 0;
            while x < dim
                invariant
                    self.wf(),
                    dim == self.dim,
                    x <= dim,
                    y < dim,
                    forall|xx: int, yy: int|
                        on_grid(dim as int, xx, yy) && yy < y ==> cell_ok(*self, xx, yy),
                    forall|xx: int| 0 <= xx < x ==> cell_ok(*self, xx, y as int),
                decreases dim - x,
            {
                proof {
                    lemma_idx_bounds(dim as int, x as int, y as int);
                }
                let c = self.get_cell(x, y);
                if c == Cell::Empty {
                    proof {
                        assert(!cell_ok(*self, x as int, y as int));
                    }
                    return false;
                }
                if c == Cell::Tree {
                    if self.orth_count(x, y, Cell::Tent) == 0 {
                        proof {
                            assert(!cell_ok(*self, x as int, y as int));
                        }
                        return false;
                    }
                }
                if c == Cell::Tent {
                    if self.orth_count(x, y, Cell::Tree) == 0 {
                        proof {
                            assert(!cell_ok(*self, x as int, y as int));
                        }
                        return false;
                    }
                    if !self.tent_clear_at(x, y) {
                        proof {
                            assert(!cell_ok(*self, x as int, y as int));
                        }
                        return false;
                    }
                }
                x = x + 1;
            }
            y = y + 1;
        }
        proof {
            assert forall|i: int| 0 <= i < self.cells@.len() implies self.cells@[i]
                != Cell::Empty by {
                lemma_flat_decompose(self.dim as int, i);
                assert(cell_ok(*self, i % self.dim as int, i / self.dim as int));
            }
        }
        true
    }
}

} // verus!
