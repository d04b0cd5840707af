//! The puzzle board: a square grid of cells plus the remaining tent
//! requirement of every row and column.

use crate::count::{cnt_flat, cnt_row, cnt_col, lemma_cnt_flat_bounds, lemma_cnt_row_mono, lemma_cnt_col_mono};
use crate::solver::{solve_ok, Backtrack, Unsolvable};
use crate::space::{idx, lemma_flat_decompose, lemma_idx_bounds, lemma_idx_injective, on_grid};
use crate::validity::tree_adjacent;
use vstd::prelude::*;

verus! {

/// One cell of the board.
///
/// `Tree` cells are fixed by the puzzle. The solver turns every `Empty`
/// cell into either `Tent` or `Grass`.
#[derive(Clone, Copy, Debug, PartialEq, Eq, Structural)]
pub enum Cell {
    Tree,
    Tent,
    Grass,
    Empty,
}

/// The board. Cells are stored row by row in one flat vector: the cell at
/// column `x`, row `y` sits at index `x + y * dim`.
///
/// `row_tents[y]` and `col_tents[x]` hold the number of tents still to be
/// placed in that row or column: they start at the puzzle's required counts
/// and are decremented as tents are placed.
#[derive(Debug)]
pub struct State {
    pub dim: usize,
    pub cells: Vec<Cell>,
    pub col_tents: Vec<u8>,
    pub row_tents: Vec<u8>,
}

impl State {
    /// The number of cells of the board.
    pub open spec fn area(self) -> int {
        self.dim * self.dim
    }

    /// Shape of a well-formed board: a square cell vector and one counter
    /// per row and per column.
    pub open spec fn wf(self) -> bool {
        &&& self.cells@.len() == self.area()
        &&& self.col_tents@.len() == self.dim
        &&& self.row_tents@.len() == self.dim
    }

    /// The cell at column `x`, row `y`.
    pub open spec fn cell(self, x: int, y: int) -> Cell {
        self.cells@[idx(self.dim as int, x, y)]
    }

    /// No cell of the board holds a tent.
    pub open spec fn tentless(self) -> bool {
        forall|i: int| 0 <= i < self.cells@.len() ==> self.cells@[i] != Cell::Tent
    }

    pub fn get_cell(&self, x: usize, y: usize) -> (c: Cell)
        requires
            self.wf(),
            x < self.dim,
            y < self.dim,
        ensures
            c == self.cell(x as int, y as int),
    {
        // binding the length shows the index fits in a machine word
        let n = self.cells.len();
        proof {
            lemma_idx_bounds(self.dim as int, x as int, y as int);
        }
        self.cells[x + y * self.dim]
    }

    pub fn set_cell(&mut self, x: usize, y: usize, value: Cell)
        requires
            old(self).wf(),
            x < old(self).dim,
            y < old(self).dim,
        ensures
            final(self).cells@ == old(self).cells@.update(
                idx(old(self).dim as int, x as int, y as int),
                value,
            ),
            final(self).dim == old(self).dim,
            final(self).row_tents@ == old(self).row_tents@,
            final(self).col_tents@ == old(self).col_tents@,
            final(self).wf(),
    {
        // binding the length shows the index fits in a machine word
        let n = self.cells.len();
        proof {
            lemma_idx_bounds(self.dim as int, x as int, y as int);
        }
        let i = x + y * self.dim;
        self.cells.set(i, value);
    }

    /// Reads the cell at a flat index.
    pub fn get_idx(&self, i: usize) -> (c: Cell)
        requires
            i < self.cells@.len(),
        ensures
            c == self.cells@[i as int],
    {
        self.cells[i]
    }

    /// Writes the cell at a flat index.
    pub fn set_idx(&mut self, i: usize, value: Cell)
        requires
            i < old(self).cells@.len(),
        ensures
            final(self).cells@ == old(self).cells@.update(i as int, value),
            final(self).dim == old(self).dim,
            final(self).row_tents@ == old(self).row_tents@,
            final(self).col_tents@ == old(self).col_tents@,
    {
        self.cells.set(i, value);
    }

    /// Coordinates of a flat index: `(column, row)`.
    pub fn index_to_xy(&self, index: usize) -> (xy: (usize, usize))
        requires
            self.wf(),
            self.dim > 0,
            index < self.cells@.len(),
        ensures
            xy.0 < self.dim,
            xy.1 < self.dim,
            index == idx(self.dim as int, xy.0 as int, xy.1 as int),
    {
        let x = index % self.dim;
        let y = index / self.dim;
        proof {
            assert(index < self.dim * self.dim);
            assert(y < self.dim) by (nonlinear_arith)
                requires
                    index < self.dim * self.dim,
                    y == index as int / self.dim as int,
                    self.dim > 0,
            ;
            vstd::arithmetic::div_mod::lemma_fundamental_div_mod(
                index as int,
                self.dim as int,
            );
            assert(self.dim as int * (index as int / self.dim as int) == (index as int
                / self.dim as int) * self.dim as int) by (nonlinear_arith);
        }
        (x, y)
    }

    /// The lowest flat index holding an `Empty` cell, if any.
    ///
    /// The solver always works on the cell this returns, which makes the
    /// search order deterministic.
    pub fn find_empty(&self) -> (r: Option<usize>)
        ensures
            match r {
                Some(i) => {
                    &&& i < self.cells@.len()
                    &&& self.cells@[i as int] == Cell::Empty
                    &&& forall|j: int| 0 <= j < i ==> self.cells@[j] != Cell::Empty
                },
                None => forall|j: int|
                    0 <= j < self.cells@.len() ==> self.cells@[j] != Cell::Empty,
            },
    {
        let n = self.cells.len();
        let mut i: usize = 0;
        while i < n
            invariant
                n == self.cells@.len(),
                i <= n,
                forall|j: int| 0 <= j < i ==> self.cells@[j] != Cell::Empty,
            decreases n - i,
        {
            if self.cells[i] == Cell::Empty {
                return Some(i);
            }
            i = i + 1;
        }
        None
    }

    /// Number of cells of kind `c` on the whole board.
    pub fn count_cells(&self, c: Cell) -> (r: usize)
        ensures
            r == cnt_flat(self.cells@, c, self.cells@.len() as int),
    {
        let n = self.cells.len();
        let mut i: usize = 0;
        let mut r: usize = 0;
        while i < n
            invariant
                n == self.cells@.len(),
                i <= n,
                r == cnt_flat(self.cells@, c, i as int),
                r <= i,
            decreases n - i,
        {
            proof {
                lemma_cnt_flat_bounds(self.cells@, c, i as int);
            }
            if self.cells[i] == c {
                r = r + 1;
            }
            i = i + 1;
        }
        r
    }
}

/// The single deduction pass rules the cell at `(x, y)` out: it is still
/// undecided and either borders no tree, or sits in a row or column that
/// needs no further tent.
pub open spec fn forced_grass(st: State, x: int, y: int) -> bool {
    st.cell(x, y) == Cell::Empty && (!tree_adjacent(st.cells@, st.dim as int, x, y)
        || st.row_tents@[y] == 0 || st.col_tents@[x] == 0)
}

/// The cell at `(x, y)` after the deduction pass.
pub open spec fn fg_cell(st: State, x: int, y: int) -> Cell {
    if forced_grass(st, x, y) {
        Cell::Grass
    } else {
        st.cell(x, y)
    }
}

/// The cell at `(x, y)` after the tree-adjacency part of the pass alone.
spec fn p1_cell(st: State, x: int, y: int) -> Cell {
    if st.cell(x, y) == Cell::Empty && !tree_adjacent(st.cells@, st.dim as int, x, y) {
        Cell::Grass
    } else {
        st.cell(x, y)
    }
}

/// The cell at `(x, y)` after additionally clearing exhausted columns.
spec fn p2_cell(st: State, x: int, y: int) -> Cell {
    if st.cell(x, y) == Cell::Empty && (!tree_adjacent(st.cells@, st.dim as int, x, y)
        || st.col_tents@[x] == 0) {
        Cell::Grass
    } else {
        st.cell(x, y)
    }
}

impl State {
    /// One deterministic deduction pass over the whole board: every
    /// undecided cell that borders no tree, or whose row or column needs
    /// no further tent, becomes grass. Run once before the search starts.
    pub fn fill_green(&mut self)
        requires
            old(self).wf(),
        ensures
            final(self).wf(),
            final(self).dim == old(self).dim,
            final(self).row_tents@ == old(self).row_tents@,
            final(self).col_tents@ == old(self).col_tents@,
            forall|x: int, y: int|
                on_grid(old(self).dim as int, x, y) ==> final(self).cell(x, y) == fg_cell(
                    *old(self),
                    x,
                    y,
                ),
    {
        let dim = self.dim;
        let ghost dimi = dim as int;
        let mut y: usize = 0;
        while y < dim
            invariant
                self.wf(),
                old(self).wf(),
                dim == self.dim,
                dimi == dim as int,
                self.dim == old(self).dim,
                self.row_tents@ == old(self).row_tents@,
                self.col_tents@ == old(self).col_tents@,
                y <= dim,
                forall|i: int|
                    0 <= i < self.cells@.len() ==> ((self.cells@[i] == Cell::Tree) <==> (old(
                        self,
                    ).cells@[i] == Cell::Tree)),
                forall|xx: int, yy: int|
                    on_grid(dimi, xx, yy) ==> self.cells@[idx(dimi, xx, yy)] == (if yy < y {
                        p1_cell(*old(self), xx, yy)
                    } else {
                        old(self).cells@[idx(dimi, xx, yy)]
                    }),
            decreases dim - y,
        {
            let mut x: usize = 0;
            while x < dim
                invariant
                    self.wf(),
                    old(self).wf(),
                    dim == self.dim,
                    dimi == dim as int,
                    self.dim == old(self).dim,
                    self.row_tents@ == old(self).row_tents@,
                    self.col_tents@ == old(self).col_tents@,
                    y < dim,
                    x <= dim,
                    forall|i: int|
                        0 <= i < self.cells@.len() ==> ((self.cells@[i] == Cell::Tree) <==> (old(
                            self,
                        ).cells@[i] == Cell::Tree)),
                    forall|xx: int, yy: int|
                        on_grid(dimi, xx, yy) ==> self.cells@[idx(dimi, xx, yy)] == (if yy < y || (
                        yy == y && xx < x) {
                            p1_cell(*old(self), xx, yy)
                        } else {
                            old(self).cells@[idx(dimi, xx, yy)]
                        }),
                decreases dim - x,
            {
                proof {
                    lemma_idx_bounds(dimi, x as int, y as int);
                    if x > 0 {
                        lemma_idx_bounds(dimi, x as int - 1, y as int);
                    }
                    if x + 1 < dim {
                        lemma_idx_bounds(dimi, x as int + 1, y as int);
                    }
                    if y > 0 {
                        lemma_idx_bounds(dimi, x as int, y as int - 1);
                    }
                    if y + 1 < dim {
                        lemma_idx_bounds(dimi, x as int, y as int + 1);
                    }
                }
                let c = self.get_cell(x, y);
                if c == Cell::Empty {
                    let mut adj = false;
                    if x > 0 && self.get_cell(x - 1, y) == Cell::Tree {
                        adj = true;
                    }
                    if x + 1 < dim && self.get_cell(x + 1, y) == Cell::Tree {
                        adj = true;
                    }
                    if y > 0 && self.get_cell(x, y - 1) == Cell::Tree {
                        adj = true;
                    }
                    if y + 1 < dim && self.get_cell(x, y + 1) == Cell::Tree {
                        adj = true;
                    }
                    proof {
                        assert(adj == tree_adjacent(old(self).cells@, dimi, x as int, y as int));
                    }
                    if !adj {
                        let ghost before = self.cells@;
                        self.set_cell(x, y, Cell::Grass);
                        proof {
                            assert forall|xx: int, yy: int|
                                on_grid(dimi, xx, yy) implies self.cells@[idx(dimi, xx, yy)] == (
                            if yy < y as int || (yy == y as int && xx < x as int + 1) {
                                p1_cell(*old(self), xx, yy)
                            } else {
                                old(self).cells@[idx(dimi, xx, yy)]
                            }) by {
                                lemma_idx_bounds(dimi, xx, yy);
                                if idx(dimi, xx, yy) == idx(dimi, x as int, y as int) {
                                    lemma_idx_injective(dimi, xx, yy, x as int, y as int);
                                }
                            }
                        }
                    }
                }
                x = x + 1;
            }
            y = y + 1;
        }
        // clear every column that needs no tent
        let mut x: usize = 0;
        while x < dim
            invariant
                self.wf(),
                old(self).wf(),
                dim == self.dim,
                dimi == dim as int,
                self.dim == old(self).dim,
                self.row_tents@ == old(self).row_tents@,
                self.col_tents@ == old(self).col_tents@,
                x <= dim,
                forall|i: int|
                    0 <= i < self.cells@.len() ==> ((self.cells@[i] == Cell::Tree) <==> (old(
                        self,
                    ).cells@[i] == Cell::Tree)),
                forall|xx: int, yy: int|
                    on_grid(dimi, xx, yy) ==> self.cells@[idx(dimi, xx, yy)] == (if xx < x {
                        p2_cell(*old(self), xx, yy)
                    } else {
                        p1_cell(*old(self), xx, yy)
                    }),
            decreases dim - x,
        {
            if self.col_tents[x] == 0 {
                let mut y: usize = 0;
                while y < dim
                    invariant
                        self.wf(),
                        old(self).wf(),
                        dim == self.dim,
                        dimi == dim as int,
                        self.dim == old(self).dim,
                        self.row_tents@ == old(self).row_tents@,
                        self.col_tents@ == old(self).col_tents@,
                        x < dim,
                        y <= dim,
                        old(self).col_tents@[x as int] == 0,
                        forall|i: int|
                            0 <= i < self.cells@.len() ==> ((self.cells@[i] == Cell::Tree) <==> (
                            old(self).cells@[i] == Cell::Tree)),
                        forall|xx: int, yy: int|
                            on_grid(dimi, xx, yy) ==> self.cells@[idx(dimi, xx, yy)] == (if xx
                                < x as int || (xx == x as int && yy < y) {
                                p2_cell(*old(self), xx, yy)
                            } else {
                                p1_cell(*old(self), xx, yy)
                            }),
                    decreases dim - y,
                {
                    proof {
                        lemma_idx_bounds(dimi, x as int, y as int);
                    }
                    if self.get_cell(x, y) == Cell::Empty {
                        self.set_cell(x, y, Cell::Grass);
                    }
                    proof {
                        assert forall|xx: int, yy: int|
                            on_grid(dimi, xx, yy) implies self.cells@[idx(dimi, xx, yy)] == (if xx
                            < x as int || (xx == x as int && yy < y as int + 1) {
                            p2_cell(*old(self), xx, yy)
                        } else {
                            p1_cell(*old(self), xx, yy)
                        }) by {
                            lemma_idx_bounds(dimi, xx, yy);
                            if idx(dimi, xx, yy) == idx(dimi, x as int, y as int) {
                                lemma_idx_injective(dimi, xx, yy, x as int, y as int);
                            }
                        }
                    }
                    y = y + 1;
                }
            } else {
                proof {
                    assert forall|yy: int| 0 <= yy < dimi implies p2_cell(*old(self), x as int, yy)
                        == p1_cell(*old(self), x as int, yy) by {}
                }
            }
            x = x + 1;
        }
        // clear every row that needs no tent
        let mut y: usize = 0;
        while y < dim
            invariant
                self.wf(),
                old(self).wf(),
                dim == self.dim,
                dimi == dim as int,
                self.dim == old(self).dim,
                self.row_tents@ == old(self).row_tents@,
                self.col_tents@ == old(self).col_tents@,
                y <= dim,
                forall|i: int|
                    0 <= i < self.cells@.len() ==> ((self.cells@[i] == Cell::Tree) <==> (old(
                        self,
                    ).cells@[i] == Cell::Tree)),
                forall|xx: int, yy: int|
                    on_grid(dimi, xx, yy) ==> self.cells@[idx(dimi, xx, yy)] == (if yy < y {
                        fg_cell(*old(self), xx, yy)
                    } else {
                        p2_cell(*old(self), xx, yy)
                    }),
            decreases dim - y,
        {
            if self.row_tents[y] == 0 {
                let mut x: usize = 0;
                while x < dim
                    invariant
                        self.wf(),
                        old(self).wf(),
                        dim == self.dim,
                        dimi == dim as int,
                        self.dim == old(self).dim,
                        self.row_tents@ == old(self).row_tents@,
                        self.col_tents@ == old(self).col_tents@,
                        y < dim,
                        x <= dim,
                        old(self).row_tents@[y as int] == 0,
                        forall|i: int|
                            0 <= i < self.cells@.len() ==> ((self.cells@[i] == Cell::Tree) <==> (
                            old(self).cells@[i] == Cell::Tree)),
                        forall|xx: int, yy: int|
                            on_grid(dimi, xx, yy) ==> self.cells@[idx(dimi, xx, yy)] == (if yy
                                < y as int || (yy == y as int && xx < x) {
                                fg_cell(*old(self), xx, yy)
                            } else {
                                p2_cell(*old(self), xx, yy)
                            }),
                    decreases dim - x,
                {
                    proof {
                        lemma_idx_bounds(dimi, x as int, y as int);
                    }
                    if self.get_cell(x, y) == Cell::Empty {
                        self.set_cell(x, y, Cell::Grass);
                    }
                    proof {
                        assert forall|xx: int, yy: int|
                            on_grid(dimi, xx, yy) implies self.cells@[idx(dimi, xx, yy)] == (if yy
                            < y as int || (yy == y as int && xx < x as int + 1) {
                            fg_cell(*old(self), xx, yy)
                        } else {
                            p2_cell(*old(self), xx, yy)
                        }) by {
                            lemma_idx_bounds(dimi, xx, yy);
                            if idx(dimi, xx, yy) == idx(dimi, x as int, y as int) {
                                lemma_idx_injective(dimi, xx, yy, x as int, y as int);
                            }
                        }
                    }
                    x = x + 1;
                }
            } else {
                proof {
                    assert forall|xx: int| 0 <= xx < dimi implies fg_cell(*old(self), xx, y as int)
                        == p2_cell(*old(self), xx, y as int) by {}
                }
            }
            y = y + 1;
        }
    }

    /// Runs the deduction pass and then the backtracking search, returning
    /// the solved board or reporting that the puzzle has no solution.
    pub fn solve(self) -> (r: Result<State, Unsolvable>)
        requires
            self.wf(),
        ensures
            match r {
                Ok(post) => solve_ok(self, post),
                Err(_) => true,
            },
            (self.tentless() && (crate::count::sum_u8(self.row_tents@, self.dim as int) != cnt_flat(
                self.cells@,
                Cell::Tree,
                self.cells@.len() as int,
            ) || crate::count::sum_u8(self.col_tents@, self.dim as int) != cnt_flat(
                self.cells@,
                Cell::Tree,
                self.cells@.len() as int,
            ))) ==> r is Err,
            (crate::validity::solved_spec(self) && cnt_flat(
                self.cells@,
                Cell::Tent,
                self.cells@.len() as int,
            ) == cnt_flat(self.cells@, Cell::Tree, self.cells@.len() as int)) ==> r is Ok,
    {
        let ghost pre = self;
        let mut state = self;
        state.fill_green();
        let ghost mid = state;
        proof {
            let dimi = pre.dim as int;
            let n = pre.cells@.len() as int;
            assert forall|i: int|
                0 <= i < n implies ((mid.cells@[i] == Cell::Tent) <==> (pre.cells@[i]
                == Cell::Tent)) && ((mid.cells@[i] == Cell::Tree) <==> (pre.cells@[i]
                == Cell::Tree)) && (pre.cells@[i] != Cell::Empty ==> mid.cells@[i]
                == pre.cells@[i]) by {
                lemma_flat_decompose(dimi, i);
                let xx = i % dimi;
                let yy = i / dimi;
                assert(mid.cell(xx, yy) == fg_cell(pre, xx, yy));
            }
            assert forall|yy: int| 0 <= yy < dimi implies cnt_row(mid.cells@, dimi, yy, Cell::Tent, dimi)
                == cnt_row(pre.cells@, dimi, yy, Cell::Tent, dimi) by {
                assert forall|xx: int|
                    0 <= xx < dimi implies (mid.cells@[idx(dimi, xx, yy)] == Cell::Tent <==> pre.cells@[
                    idx(dimi, xx, yy)] == Cell::Tent) by {
                    lemma_idx_bounds(dimi, xx, yy);
                    assert(mid.cell(xx, yy) == fg_cell(pre, xx, yy));
                }
                lemma_cnt_row_mono(mid.cells@, pre.cells@, dimi, yy, Cell::Tent, dimi);
                lemma_cnt_row_mono(pre.cells@, mid.cells@, dimi, yy, Cell::Tent, dimi);
            }
            assert forall|xx: int| 0 <= xx < dimi implies cnt_col(mid.cells@, dimi, xx, Cell::Tent, dimi)
                == cnt_col(pre.cells@, dimi, xx, Cell::Tent, dimi) by {
                assert forall|yy: int|
                    0 <= yy < dimi implies (mid.cells@[idx(dimi, xx, yy)] == Cell::Tent <==> pre.cells@[
                    idx(dimi, xx, yy)] == Cell::Tent) by {
                    lemma_idx_bounds(dimi, xx, yy);
                    assert(mid.cell(xx, yy) == fg_cell(pre, xx, yy));
                }
                lemma_cnt_col_mono(mid.cells@, pre.cells@, dimi, xx, Cell::Tent, dimi);
                lemma_cnt_col_mono(pre.cells@, mid.cells@, dimi, xx, Cell::Tent, dimi);
            }
            // a board that is already solved passes the deduction pass
            // unchanged, and the engine accepts it at once
            if crate::validity::solved_spec(pre) {
                assert forall|i: int| 0 <= i < n implies mid.cells@[i] == pre.cells@[i] by {
                    lemma_flat_decompose(dimi, i);
                    let xx = i % dimi;
                    let yy = i / dimi;
                    assert(mid.cell(xx, yy) == fg_cell(pre, xx, yy));
                }
                assert(mid.cells@ =~= pre.cells@);
                assert forall|xx: int, yy: int|
                    on_grid(dimi, xx, yy) implies crate::validity::cell_ok(mid, xx, yy) by {
                    assert(crate::validity::cell_ok(pre, xx, yy));
                }
                assert(crate::validity::solved_spec(mid));
            }
        }
        let r = Backtrack::apply(state);
        match r {
            Ok(post) => {
                proof {
                    assert(solve_ok(pre, post));
                    if pre.tentless() {
                        crate::laws::lemma_solved_sums(pre, post);
                    }
                }
                Ok(post)
            },
            Err(e) => Err(e),
        }
    }
}

} // verus!
