//! Index arithmetic for a square grid stored as one flat sequence.
//!
//! A cell at column `x` and row `y` of a grid of side `dim` lives at flat
//! index `x + y * dim`.

use vstd::arithmetic::div_mod::lemma_fundamental_div_mod;
use vstd::prelude::*;

verus! {

/// Flat index of the cell at column `x`, row `y`.
pub open spec fn idx(dim: int, x: int, y: int) -> int {
    x + y * dim
}

/// A coordinate pair that lies on the grid.
pub open spec fn on_grid(dim: int, x: int, y: int) -> bool {
    0 <= x < dim && 0 <= y < dim
}

/// The flat index of an on-grid coordinate pair is itself in range.
pub proof fn lemma_idx_bounds(dim: int, x: int, y: int)
    by (nonlinear_arith)
    requires
        on_grid(dim, x, y),
    ensures
        0 <= y * dim,
        y * dim <= (dim - 1) * dim,
        0 <= idx(dim, x, y) < dim * dim,
{
}

/// Distinct on-grid coordinate pairs have distinct flat indices.
pub proof fn lemma_idx_injective(dim: int, x1: int, y1: int, x2: int, y2: int)
    by (nonlinear_arith)
    requires
        on_grid(dim, x1, y1),
        on_grid(dim, x2, y2),
        idx(dim, x1, y1) == idx(dim, x2, y2),
    ensures
        x1 == x2,
        y1 == y2,
{
}

/// Every flat index in range is the index of an on-grid coordinate pair.
pub proof fn lemma_flat_decompose(dim: int, i: int)
    requires
        0 <= dim,
        0 <= i < dim * dim,
    ensures
        on_grid(dim, i % dim, i / dim),
        idx(dim, i % dim, i / dim) == i,
{
    assert(dim > 0) by (nonlinear_arith)
        requires
            0 <= dim,
            0 <= i < dim * dim,
    ;
    lemma_fundamental_div_mod(i, dim);
    assert(0 <= i % dim < dim) by (nonlinear_arith)
        requires
            dim > 0,
            0 <= i,
    ;
    assert(0 <= i / dim < dim) by (nonlinear_arith)
        requires
            dim > 0,
            0 <= i < dim * dim,
    ;
    assert(dim * (i / dim) == (i / dim) * dim) by (nonlinear_arith);
}

} // verus!
