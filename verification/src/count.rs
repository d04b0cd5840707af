//! Counting cells of a given kind over the flat sequence, over one row,
//! over one column, and summed over all rows or columns.

use crate::grid::Cell;
use crate::space::idx;
use vstd::prelude::*;

verus! {

/// Number of flat indices `i` in `[0, n)` with `s[i] == c`.
pub open spec fn cnt_flat(s: Seq<Cell>, c: Cell, n: int) -> int
    decreases n,
{
    if n <= 0 {
        0
    } else {
        cnt_flat(s, c, n - 1) + if s[n - 1] == c {
            1int
        } else {
            0int
        }
    }
}

/// Number of columns `x` in `[0, n)` whose cell in row `y` is `c`.
pub open spec fn cnt_row(s: Seq<Cell>, dim: int, y: int, c: Cell, n: int) -> int
    decreases n,
{
    if n <= 0 {
        0
    } else {
        cnt_row(s, dim, y, c, n - 1) + if s[idx(dim, n - 1, y)] == c {
            1int
        } else {
            0int
        }
    }
}

/// Number of rows `y` in `[0, n)` whose cell in column `x` is `c`.
pub open spec fn cnt_col(s: Seq<Cell>, dim: int, x: int, c: Cell, n: int) -> int
    decreases n,
{
    if n <= 0 {
        0
    } else {
        cnt_col(s, dim, x, c, n - 1) + if s[idx(dim, x, n - 1)] == c {
            1int
        } else {
            0int
        }
    }
}

/// Sum of the full row counts of the first `ny` rows.
pub open spec fn sum_rows(s: Seq<Cell>, dim: int, c: Cell, ny: int) -> int
    decreases ny,
{
    if ny <= 0 {
        0
    } else {
        sum_rows(s, dim, c, ny - 1) + cnt_row(s, dim, ny - 1, c, dim)
    }
}

/// Sum over the first `nx` columns of the count restricted to the first `ny` rows.
pub open spec fn sum_cols(s: Seq<Cell>, dim: int, c: Cell, nx: int, ny: int) -> int
    decreases nx,
{
    if nx <= 0 {
        0
    } else {
        sum_cols(s, dim, c, nx - 1, ny) + cnt_col(s, dim, nx - 1, c, ny)
    }
}

/// Sum of the first `n` entries of a sequence of bytes.
pub open spec fn sum_u8(v: Seq<u8>, n: int) -> int
    decreases n,
{
    if n <= 0 {
        0
    } else {
        sum_u8(v, n - 1) + v[n - 1]
    }
}

pub proof fn lemma_cnt_flat_bounds(s: Seq<Cell>, c: Cell, n: int)
    ensures
        0 <= cnt_flat(s, c, n),
        n >= 0 ==> cnt_flat(s, c, n) <= n,
    decreases n,
{
    if n > 0 {
        lemma_cnt_flat_bounds(s, c, n - 1);
    }
}

/// A cell of kind `c` inside the prefix makes the count positive.
pub proof fn lemma_cnt_flat_pos(s: Seq<Cell>, c: Cell, i: int, n: int)
    requires
        0 <= i < n,
        s[i] == c,
    ensures
        cnt_flat(s, c, n) >= 1,
    decreases n,
{
    lemma_cnt_flat_bounds(s, c, n - 1);
    if i < n - 1 {
        lemma_cnt_flat_pos(s, c, i, n - 1);
    }
}

/// Counts of two different kinds together never exceed the prefix length.
pub proof fn lemma_cnt_flat_disjoint(s: Seq<Cell>, c1: Cell, c2: Cell, n: int)
    requires
        c1 != c2,
        n >= 0,
    ensures
        cnt_flat(s, c1, n) + cnt_flat(s, c2, n) <= n,
    decreases n,
{
    if n > 0 {
        lemma_cnt_flat_disjoint(s, c1, c2, n - 1);
    }
}

/// How updating one cell changes the flat count.
pub proof fn lemma_cnt_flat_update(s: Seq<Cell>, c: Cell, p: int, v: Cell, n: int)
    requires
        0 <= p < s.len(),
        n <= s.len(),
    ensures
        cnt_flat(s.update(p, v), c, n) == cnt_flat(s, c, n) + if p < n {
            (if v == c {
                1int
            } else {
                0int
            }) - (if s[p] == c {
                1int
            } else {
                0int
            })
        } else {
            0int
        },
    decreases n,
{
    if n > 0 {
        lemma_cnt_flat_update(s, c, p, v, n - 1);
    }
}

/// Sequences that agree on which cells are of kind `c` have equal flat counts.
pub proof fn lemma_cnt_flat_pointwise(s1: Seq<Cell>, s2: Seq<Cell>, c: Cell, n: int)
    requires
        forall|i: int| 0 <= i < n ==> ((s1[i] == c) <==> (s2[i] == c)),
    ensures
        cnt_flat(s1, c, n) == cnt_flat(s2, c, n),
    decreases n,
{
    if n > 0 {
        lemma_cnt_flat_pointwise(s1, s2, c, n - 1);
    }
}

/// How updating the cell at `(x0, y0)` changes a row count.
pub proof fn lemma_cnt_row_update(
    s: Seq<Cell>,
    dim: int,
    y: int,
    c: Cell,
    v: Cell,
    x0: int,
    y0: int,
    n: int,
)
    requires
        0 <= x0 < dim,
        0 <= y0 < dim,
        0 <= y < dim,
        n <= dim,
        dim * dim <= s.len(),
    ensures
        cnt_row(s.update(idx(dim, x0, y0), v), dim, y, c, n) == cnt_row(s, dim, y, c, n) + if y0
            == y && x0 < n {
            (if v == c {
                1int
            } else {
                0int
            }) - (if s[idx(dim, x0, y0)] == c {
                1int
            } else {
                0int
            })
        } else {
            0int
        },
    decreases n,
{
    if n > 0 {
        lemma_cnt_row_update(s, dim, y, c, v, x0, y0, n - 1);
        crate::space::lemma_idx_bounds(dim, n - 1, y);
        crate::space::lemma_idx_bounds(dim, x0, y0);
        if idx(dim, n - 1, y) == idx(dim, x0, y0) {
            crate::space::lemma_idx_injective(dim, n - 1, y, x0, y0);
        }
    }
}

/// How updating the cell at `(x0, y0)` changes a column count.
pub proof fn lemma_cnt_col_update(
    s: Seq<Cell>,
    dim: int,
    x: int,
    c: Cell,
    v: Cell,
    x0: int,
    y0: int,
    n: int,
)
    requires
        0 <= x0 < dim,
        0 <= y0 < dim,
        0 <= x < dim,
        n <= dim,
        dim * dim <= s.len(),
    ensures
        cnt_col(s.update(idx(dim, x0, y0), v), dim, x, c, n) == cnt_col(s, dim, x, c, n) + if x0
            == x && y0 < n {
            (if v == c {
                1int
            } else {
                0int
            }) - (if s[idx(dim, x0, y0)] == c {
                1int
            } else {
                0int
            })
        } else {
            0int
        },
    decreases n,
{
    if n > 0 {
        lemma_cnt_col_update(s, dim, x, c, v, x0, y0, n - 1);
        crate::space::lemma_idx_bounds(dim, x, n - 1);
        crate::space::lemma_idx_bounds(dim, x0, y0);
        if idx(dim, x, n - 1) == idx(dim, x0, y0) {
            crate::space::lemma_idx_injective(dim, x, n - 1, x0, y0);
        }
    }
}

/// A row with no cell of kind `c` counts zero.
pub proof fn lemma_cnt_row_none(s: Seq<Cell>, dim: int, y: int, c: Cell, n: int)
    requires
        forall|x: int| 0 <= x < n ==> s[idx(dim, x, y)] != c,
    ensures
        cnt_row(s, dim, y, c, n) == 0,
    decreases n,
{
    if n > 0 {
        lemma_cnt_row_none(s, dim, y, c, n - 1);
    }
}

/// A column with no cell of kind `c` counts zero.
pub proof fn lemma_cnt_col_none(s: Seq<Cell>, dim: int, x: int, c: Cell, n: int)
    requires
        forall|y: int| 0 <= y < n ==> s[idx(dim, x, y)] != c,
    ensures
        cnt_col(s, dim, x, c, n) == 0,
    decreases n,
{
    if n > 0 {
        lemma_cnt_col_none(s, dim, x, c, n - 1);
    }
}

/// A column count can only grow when every `c` cell of `s1` is a `c` cell of `s2`,
/// and grows strictly when some row `yw` witnesses a new `c` cell.
pub proof fn lemma_cnt_col_grow(
    s1: Seq<Cell>,
    s2: Seq<Cell>,
    dim: int,
    x: int,
    c: Cell,
    n: int,
    yw: int,
)
    requires
        forall|y: int| 0 <= y < n ==> (s1[idx(dim, x, y)] == c ==> s2[idx(dim, x, y)] == c),
        0 <= yw < n,
        s1[idx(dim, x, yw)] != c,
        s2[idx(dim, x, yw)] == c,
    ensures
        cnt_col(s1, dim, x, c, n) < cnt_col(s2, dim, x, c, n),
    decreases n,
{
    if yw == n - 1 {
        lemma_cnt_col_mono(s1, s2, dim, x, c, n - 1);
    } else {
        lemma_cnt_col_grow(s1, s2, dim, x, c, n - 1, yw);
    }
}

/// A column count is monotone under pointwise implication of `c`-ness.
pub proof fn lemma_cnt_col_mono(s1: Seq<Cell>, s2: Seq<Cell>, dim: int, x: int, c: Cell, n: int)
    requires
        forall|y: int| 0 <= y < n ==> (s1[idx(dim, x, y)] == c ==> s2[idx(dim, x, y)] == c),
    ensures
        cnt_col(s1, dim, x, c, n) <= cnt_col(s2, dim, x, c, n),
    decreases n,
{
    if n > 0 {
        lemma_cnt_col_mono(s1, s2, dim, x, c, n - 1);
    }
}

/// A row count can only grow when every `c` cell of `s1` is a `c` cell of `s2`,
/// and grows strictly when some column `xw` witnesses a new `c` cell.
pub proof fn lemma_cnt_row_grow(
    s1: Seq<Cell>,
    s2: Seq<Cell>,
    dim: int,
    y: int,
    c: Cell,
    n: int,
    xw: int,
)
    requires
        forall|x: int| 0 <= x < n ==> (s1[idx(dim, x, y)] == c ==> s2[idx(dim, x, y)] == c),
        0 <= xw < n,
        s1[idx(dim, xw, y)] != c,
        s2[idx(dim, xw, y)] == c,
    ensures
        cnt_row(s1, dim, y, c, n) < cnt_row(s2, dim, y, c, n),
    decreases n,
{
    if xw == n - 1 {
        lemma_cnt_row_mono(s1, s2, dim, y, c, n - 1);
    } else {
        lemma_cnt_row_grow(s1, s2, dim, y, c, n - 1, xw);
    }
}

/// A row count is monotone under pointwise implication of `c`-ness.
pub proof fn lemma_cnt_row_mono(s1: Seq<Cell>, s2: Seq<Cell>, dim: int, y: int, c: Cell, n: int)
    requires
        forall|x: int| 0 <= x < n ==> (s1[idx(dim, x, y)] == c ==> s2[idx(dim, x, y)] == c),
    ensures
        cnt_row(s1, dim, y, c, n) <= cnt_row(s2, dim, y, c, n),
    decreases n,
{
    if n > 0 {
        lemma_cnt_row_mono(s1, s2, dim, y, c, n - 1);
    }
}

/// The flat count over a row-aligned prefix splits into whole rows plus a partial row.
pub proof fn lemma_flat_row_segment(s: Seq<Cell>, dim: int, y: int, c: Cell, n: int)
    requires
        0 <= dim,
        0 <= y,
        0 <= n <= dim,
    ensures
        cnt_flat(s, c, y * dim + n) == cnt_flat(s, c, y * dim) + cnt_row(s, dim, y, c, n),
    decreases n,
{
    if n > 0 {
        lemma_flat_row_segment(s, dim, y, c, n - 1);
        assert(y * dim + n - 1 == idx(dim, n - 1, y));
    }
}

/// The flat count over the first `ny` whole rows equals the sum of their row counts.
pub proof fn lemma_flat_eq_sum_rows(s: Seq<Cell>, dim: int, c: Cell, ny: int)
    requires
        0 <= dim,
        0 <= ny,
    ensures
        cnt_flat(s, c, ny * dim) == sum_rows(s, dim, c, ny),
    decreases ny,
{
    if ny > 0 {
        lemma_flat_eq_sum_rows(s, dim, c, ny - 1);
        lemma_flat_row_segment(s, dim, ny - 1, c, dim);
        assert((ny - 1) * dim + dim == ny * dim) by (nonlinear_arith);
        assert(cnt_flat(s, c, ny * dim) == cnt_flat(s, c, (ny - 1) * dim) + cnt_row(
            s,
            dim,
            ny - 1,
            c,
            dim,
        ));
    } else {
        assert(ny * dim == 0) by (nonlinear_arith)
            requires
                ny == 0,
        ;
    }
}

/// Extending the column sums by one row adds that row's count.
pub proof fn lemma_sum_cols_step(s: Seq<Cell>, dim: int, c: Cell, nx: int, ny: int)
    requires
        1 <= ny,
    ensures
        sum_cols(s, dim, c, nx, ny) == sum_cols(s, dim, c, nx, ny - 1) + cnt_row(
            s,
            dim,
            ny - 1,
            c,
            nx,
        ),
    decreases nx,
{
    if nx > 0 {
        lemma_sum_cols_step(s, dim, c, nx - 1, ny);
    }
}

/// The flat count over the first `ny` whole rows equals the sum of the column
/// counts restricted to those rows.
pub proof fn lemma_flat_eq_sum_cols(s: Seq<Cell>, dim: int, c: Cell, ny: int)
    requires
        0 <= dim,
        0 <= ny,
    ensures
        cnt_flat(s, c, ny * dim) == sum_cols(s, dim, c, dim, ny),
    decreases ny,
{
    if ny > 0 {
        lemma_flat_eq_sum_cols(s, dim, c, ny - 1);
        lemma_sum_cols_step(s, dim, c, dim, ny);
        lemma_flat_row_segment(s, dim, ny - 1, c, dim);
        assert((ny - 1) * dim + dim == ny * dim) by (nonlinear_arith);
    } else {
        assert(sum_cols(s, dim, c, dim, 0) == 0) by {
            lemma_sum_cols_zero_rows(s, dim, c, dim);
        }
        assert(ny * dim == 0) by (nonlinear_arith)
            requires
                ny == 0,
        ;
    }
}

/// With no rows admitted, every column counts zero.
proof fn lemma_sum_cols_zero_rows(s: Seq<Cell>, dim: int, c: Cell, nx: int)
    ensures
        sum_cols(s, dim, c, nx, 0) == 0,
    decreases nx,
{
    if nx > 0 {
        lemma_sum_cols_zero_rows(s, dim, c, nx - 1);
    }
}

/// A byte sequence whose entries match the row counts sums to the row sum.
pub proof fn lemma_sum_u8_matches_rows(v: Seq<u8>, s: Seq<Cell>, dim: int, c: Cell, n: int)
    requires
        forall|y: int| 0 <= y < n ==> v[y] == cnt_row(s, dim, y, c, dim),
    ensures
        sum_u8(v, n) == sum_rows(s, dim, c, n),
    decreases n,
{
    if n > 0 {
        lemma_sum_u8_matches_rows(v, s, dim, c, n - 1);
    }
}

/// A byte sequence whose entries match the column counts sums to the column sum.
pub proof fn lemma_sum_u8_matches_cols(v: Seq<u8>, s: Seq<Cell>, dim: int, c: Cell, n: int, ny: int)
    requires
        forall|x: int| 0 <= x < n ==> v[x] == cnt_col(s, dim, x, c, ny),
    ensures
        sum_u8(v, n) == sum_cols(s, dim, c, n, ny),
    decreases n,
{
    if n > 0 {
        lemma_sum_u8_matches_cols(v, s, dim, c, n - 1, ny);
    }
}

} // verus!
