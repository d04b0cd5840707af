//! Consequences of a successful solve, proved once and for all.

use crate::count::{
    cnt_col, cnt_flat, cnt_row, lemma_cnt_col_none, lemma_cnt_flat_pointwise, lemma_cnt_row_none,
    lemma_flat_eq_sum_cols, lemma_flat_eq_sum_rows, lemma_sum_u8_matches_cols,
    lemma_sum_u8_matches_rows, sum_u8,
};
use crate::grid::{fg_cell, forced_grass, Cell, State};
use crate::solver::solve_ok;
use crate::space::{idx, lemma_idx_bounds, on_grid};
use crate::validity::tree_adjacent;
use vstd::prelude::*;

verus! {

/// The deduction pass is idempotent: on a board that is already its own
/// deduction image, the pass changes nothing.
pub proof fn lemma_fill_green_idempotent(st: State, mid: State)
    requires
        st.wf(),
        mid.wf(),
        mid.dim == st.dim,
        mid.row_tents@ == st.row_tents@,
        mid.col_tents@ == st.col_tents@,
        forall|x: int, y: int| on_grid(st.dim as int, x, y) ==> mid.cell(x, y) == fg_cell(st, x, y),
    ensures
        forall|x: int, y: int| on_grid(st.dim as int, x, y) ==> fg_cell(mid, x, y) == mid.cell(x, y),
{
    let dim = st.dim as int;
    assert forall|x: int, y: int| on_grid(dim, x, y) implies fg_cell(mid, x, y) == mid.cell(
        x,
        y,
    ) by {
        lemma_idx_bounds(dim, x, y);
        if mid.cell(x, y) == Cell::Empty {
            // the cell survived the first pass, so it borders a tree and
            // its row and column still expect tents; trees are where they
            // were, so the pass spares it again
            assert(mid.cell(x, y) == fg_cell(st, x, y));
            assert(!forced_grass(st, x, y));
            assert(tree_adjacent(st.cells@, dim, x, y));
            assert forall|xx: int, yy: int|
                on_grid(dim, xx, yy) implies ((mid.cells@[idx(dim, xx, yy)] == Cell::Tree) <==> (
            st.cells@[idx(dim, xx, yy)] == Cell::Tree)) by {
                lemma_idx_bounds(dim, xx, yy);
                assert(mid.cell(xx, yy) == fg_cell(st, xx, yy));
            }
            assert(tree_adjacent(mid.cells@, dim, x, y)) by {
                if x > 0 {
                    lemma_idx_bounds(dim, x - 1, y);
                    assert(mid.cell(x - 1, y) == fg_cell(st, x - 1, y));
                }
                if x + 1 < dim {
                    lemma_idx_bounds(dim, x + 1, y);
                    assert(mid.cell(x + 1, y) == fg_cell(st, x + 1, y));
                }
                if y > 0 {
                    lemma_idx_bounds(dim, x, y - 1);
                    assert(mid.cell(x, y - 1) == fg_cell(st, x, y - 1));
                }
                if y + 1 < dim {
                    lemma_idx_bounds(dim, x, y + 1);
                    assert(mid.cell(x, y + 1) == fg_cell(st, x, y + 1));
                }
            }
            assert(!forced_grass(mid, x, y));
        }
    }
}

/// For a puzzle without pre-placed tents, a solved board holds in every
/// row and in every column exactly the number of tents the input required
/// there.
pub proof fn lemma_count_satisfaction(pre: State, post: State)
    requires
        solve_ok(pre, post),
        pre.tentless(),
    ensures
        forall|y: int|
            0 <= y < pre.dim ==> cnt_row(post.cells@, pre.dim as int, y, Cell::Tent, pre.dim as int)
                == pre.row_tents@[y],
        forall|x: int|
            0 <= x < pre.dim ==> cnt_col(post.cells@, pre.dim as int, x, Cell::Tent, pre.dim as int)
                == pre.col_tents@[x],
{
    let dim = pre.dim as int;
    assert forall|y: int|
        0 <= y < dim implies cnt_row(post.cells@, dim, y, Cell::Tent, dim)
        == pre.row_tents@[y] by {
        assert forall|xx: int| 0 <= xx < dim implies pre.cells@[idx(dim, xx, y)] != Cell::Tent by {
            lemma_idx_bounds(dim, xx, y);
        }
        lemma_cnt_row_none(pre.cells@, dim, y, Cell::Tent, dim);
        assert(post.row_tents@[y] == 0);
    }
    assert forall|x: int|
        0 <= x < dim implies cnt_col(post.cells@, dim, x, Cell::Tent, dim)
        == pre.col_tents@[x] by {
        assert forall|yy: int| 0 <= yy < dim implies pre.cells@[idx(dim, x, yy)] != Cell::Tent by {
            lemma_idx_bounds(dim, x, yy);
        }
        lemma_cnt_col_none(pre.cells@, dim, x, Cell::Tent, dim);
        assert(post.col_tents@[x] == 0);
    }
}

/// A board the engine accepts pins the input's counter sums down: with no
/// pre-placed tents, the row totals and the column totals each equal the
/// number of trees. An input violating either sum therefore cannot be
/// solved: the engine reports it unsolvable.
pub proof fn lemma_solved_sums(pre: State, post: State)
    requires
        solve_ok(pre, post),
        pre.tentless(),
    ensures
        sum_u8(pre.row_tents@, pre.dim as int) == cnt_flat(
            pre.cells@,
            Cell::Tree,
            pre.cells@.len() as int,
        ),
        sum_u8(pre.col_tents@, pre.dim as int) == cnt_flat(
            pre.cells@,
            Cell::Tree,
            pre.cells@.len() as int,
        ),
{
    let dim = pre.dim as int;
    let n = post.cells@.len() as int;
    lemma_count_satisfaction(pre, post);
    lemma_sum_u8_matches_rows(pre.row_tents@, post.cells@, dim, Cell::Tent, dim);
    lemma_flat_eq_sum_rows(post.cells@, dim, Cell::Tent, dim);
    lemma_cnt_flat_pointwise(post.cells@, pre.cells@, Cell::Tree, n);
    lemma_sum_u8_matches_cols(pre.col_tents@, post.cells@, dim, Cell::Tent, dim, dim);
    lemma_flat_eq_sum_cols(post.cells@, dim, Cell::Tent, dim);
}

} // verus!
