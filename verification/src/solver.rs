//! The backtracking search engine.
//!
//! One mutable board is shared by the whole search. Every transition of a
//! cell out of `Empty` is recorded on a trail (`cords_stack`); every
//! tentative tent placement records a checkpoint (`backtrack_stack`)
//! holding the trail length right after the tent's own entry. Backtracking
//! pops a checkpoint, reverts every later trail entry to `Empty`, and turns
//! the tentative tent itself into permanent grass.
//!
//! The undecided frontier is not stored: it is exactly the set of `Empty`
//! cells, and the engine always picks the lowest `Empty` flat index, which
//! makes the search deterministic.
//!
//! A candidate board that fills every cell and consumes every counter is
//! accepted only after the full solution check of [`crate::validity`]: the
//! engine keeps searching past a board whose counts merely happen to match.

use crate::count::{
    cnt_col, cnt_flat, cnt_row, lemma_cnt_col_grow, lemma_cnt_col_update, lemma_cnt_flat_bounds,
    lemma_cnt_flat_disjoint, lemma_cnt_flat_pos, lemma_cnt_flat_update, lemma_cnt_row_grow,
    lemma_cnt_row_update,
};
use crate::grid::{Cell, State};
use crate::space::{idx, lemma_idx_bounds};
use crate::validity::solved_spec;
use vstd::prelude::*;

verus! {

/// The search exhausted every choice point: the puzzle has no solution
/// this engine can reach.
#[derive(Clone, Copy, Debug, PartialEq, Eq, Structural)]
pub struct Unsolvable;

/// Powers of three, the weights of the termination measure.
pub open spec fn pow3(n: nat) -> nat
    decreases n,
{
    if n == 0 {
        1
    } else {
        3 * pow3((n - 1) as nat)
    }
}

/// `pow3` extended to `int`, zero below zero.
pub open spec fn pow3_i(k: int) -> int {
    if k < 0 {
        0
    } else {
        pow3(k as nat) as int
    }
}

proof fn lemma_pow3_pos(k: int)
    requires
        0 <= k,
    ensures
        pow3_i(k) >= 1,
    decreases k,
{
    if k > 0 {
        lemma_pow3_pos(k - 1);
    }
}

proof fn lemma_pow3_step(k: int)
    requires
        1 <= k,
    ensures
        pow3_i(k) == 3 * pow3_i(k - 1),
{
    assert(pow3(k as nat) == 3 * pow3((k - 1) as nat));
}

proof fn lemma_pow3_mono(a: int, b: int)
    requires
        0 <= a < b,
    ensures
        pow3_i(a) < pow3_i(b),
    decreases b,
{
    lemma_pow3_pos(b - 1);
    lemma_pow3_step(b);
    if a < b - 1 {
        lemma_pow3_mono(a, b - 1);
    }
}

/// The part of the termination measure contributed by the checkpoints:
/// a checkpoint at trail offset `o` still owes the search the grass
/// alternative of its tent, weighted by how much room was left then.
pub open spec fn phi_sum(ch: Seq<usize>, cap: int) -> int
    decreases ch.len(),
{
    if ch.len() == 0 {
        0
    } else {
        phi_sum(ch.drop_last(), cap) + pow3_i(cap - ch.last())
    }
}

proof fn lemma_phi_sum_nonneg(ch: Seq<usize>, cap: int)
    ensures
        phi_sum(ch, cap) >= 0,
    decreases ch.len(),
{
    if ch.len() > 0 {
        lemma_phi_sum_nonneg(ch.drop_last(), cap);
    }
}

/// `sol` decides every cell the partial board `s` has decided, the same way.
pub open spec fn extends(s: Seq<Cell>, sol: Seq<Cell>, n: int) -> bool {
    forall|i: int| 0 <= i < n && s[i] != Cell::Empty ==> sol[i] == s[i]
}

/// The search engine: the board plus the bookkeeping of the running search.
///
/// `init` is the ghost snapshot of the board the search started from; every
/// invariant of the engine is stated against it.
pub struct Backtrack {
    pub state: State,
    pub tree_count: usize,
    pub tent_count: usize,
    pub cords_stack: Vec<usize>,
    pub backtrack_stack: Vec<usize>,
    pub init: Ghost<State>,
}

impl Backtrack {
    /// Number of cells of the board.
    pub open spec fn n(self) -> int {
        self.state.cells@.len() as int
    }

    /// Side length of the board.
    pub open spec fn dim(self) -> int {
        self.state.dim as int
    }

    /// Number of `Empty` cells of the starting board; every trail offset
    /// stays below it.
    pub open spec fn cap(self) -> int {
        cnt_flat(self.init@.cells@, Cell::Empty, self.n())
    }

    /// Trail offset `j` holds a tentative tent (checkpoints record the
    /// trail length right after their tent's entry).
    pub open spec fn is_choice(self, j: int) -> bool {
        exists|k: int|
            0 <= k < self.backtrack_stack@.len() && self.backtrack_stack@[k] == j + 1
    }

    /// Termination measure of the search: the room of the current branch
    /// plus the room owed by every open checkpoint. Placing a tent,
    /// marking grass and backtracking all shrink it.
    pub open spec fn phi(self) -> int {
        pow3_i(self.cap() - self.cords_stack@.len()) + phi_sum(
            self.backtrack_stack@,
            self.cap(),
        )
    }

    /// `sol` lies in the part of the search space a checkpoint still owes:
    /// it agrees with every decision made before that checkpoint's
    /// tentative tent, and rejects the tent itself as grass.
    pub open spec fn alt_covers(self, k: int, sol: State) -> bool {
        let o = self.backtrack_stack@[k] as int;
        &&& sol.cells@[self.cords_stack@[o - 1] as int] == Cell::Grass
        &&& forall|j: int|
            0 <= j < o - 1 ==> sol.cells@[self.cords_stack@[j] as int] == self.state.cells@[
                self.cords_stack@[j] as int]
    }

    /// `sol` is still reachable by the search: it either extends the
    /// current branch, or waits behind some open checkpoint.
    pub open spec fn covered(self, sol: State) -> bool {
        ||| extends(self.state.cells@, sol.cells@, self.n())
        ||| exists|k: int| 0 <= k < self.backtrack_stack@.len() && self.alt_covers(k, sol)
    }

    /// The engine invariant, stated against the ghost starting board:
    /// trees never move, decided cells never silently change, the two
    /// counters track the cell counts, every row and column counter plus
    /// the tents standing in it is conserved, and the trail records
    /// exactly the cells decided since the start, tents at checkpoint
    /// offsets and grass elsewhere.
    pub open spec fn inv(self) -> bool {
        let s = self.state;
        let init = self.init@;
        let t = self.cords_stack@;
        let b = self.backtrack_stack@;
        let n = self.n();
        let dim = self.dim();
        &&& s.wf()
        &&& init.wf()
        &&& s.dim == init.dim
        &&& forall|i: int|
            0 <= i < n ==> ((s.cells@[i] == Cell::Tree) <==> (init.cells@[i] == Cell::Tree))
        &&& forall|i: int|
            0 <= i < n && init.cells@[i] != Cell::Empty ==> s.cells@[i] == init.cells@[i]
        &&& self.tree_count == cnt_flat(s.cells@, Cell::Tree, n)
        &&& self.tent_count == cnt_flat(s.cells@, Cell::Tent, n)
        &&& self.tent_count == cnt_flat(init.cells@, Cell::Tent, n) + b.len()
        &&& forall|y: int|
            0 <= y < dim ==> s.row_tents@[y] + cnt_row(s.cells@, dim, y, Cell::Tent, dim)
                == init.row_tents@[y] + cnt_row(init.cells@, dim, y, Cell::Tent, dim)
        &&& forall|x: int|
            0 <= x < dim ==> s.col_tents@[x] + cnt_col(s.cells@, dim, x, Cell::Tent, dim)
                == init.col_tents@[x] + cnt_col(init.cells@, dim, x, Cell::Tent, dim)
        &&& forall|j: int| 0 <= j < t.len() ==> t[j] < n
        &&& forall|j: int| 0 <= j < t.len() ==> init.cells@[t[j] as int] == Cell::Empty
        &&& forall|i: int|
            0 <= i < n && init.cells@[i] == Cell::Empty && s.cells@[i] != Cell::Empty
                ==> exists|j: int| 0 <= j < t.len() && t[j] == i
        &&& forall|j: int|
            0 <= j < t.len() ==> s.cells@[t[j] as int] == (if self.is_choice(j) {
                Cell::Tent
            } else {
                Cell::Grass
            })
        &&& forall|j1: int, j2: int| 0 <= j1 < j2 < t.len() ==> t[j1] != t[j2]
        &&& forall|k: int| 0 <= k < b.len() ==> 1 <= #[trigger] b[k] <= t.len()
        &&& forall|k1: int, k2: int| 0 <= k1 < k2 < b.len() ==> b[k1] < b[k2]
        &&& t.len() + cnt_flat(s.cells@, Cell::Empty, n) == self.cap()
    }
}

proof fn lemma_phi_nonneg(bt: Backtrack)
    requires
        bt.inv(),
    ensures
        bt.phi() >= 0,
{
    lemma_cnt_flat_bounds(bt.state.cells@, Cell::Empty, bt.n());
    lemma_phi_sum_nonneg(bt.backtrack_stack@, bt.cap());
}

impl Backtrack {
    /// Marks the cell at `(x, y)` as grass if it is still undecided,
    /// recording the transition on the trail; otherwise does nothing.
    pub fn mark_green(&mut self, x: usize, y: usize)
        requires
            old(self).inv(),
            x < old(self).state.dim,
            y < old(self).state.dim,
        ensures
            final(self).inv(),
            final(self).init == old(self).init,
            final(self).state.dim == old(self).state.dim,
            final(self).n() == old(self).n(),
            final(self).state.row_tents@ == old(self).state.row_tents@,
            final(self).state.col_tents@ == old(self).state.col_tents@,
            final(self).backtrack_stack@ == old(self).backtrack_stack@,
            final(self).tent_count == old(self).tent_count,
            final(self).tree_count == old(self).tree_count,
            old(self).state.cell(x as int, y as int) == Cell::Empty ==> {
                &&& final(self).state.cells@ == old(self).state.cells@.update(
                    idx(old(self).dim(), x as int, y as int),
                    Cell::Grass,
                )
                &&& final(self).cords_stack@ == old(self).cords_stack@.push(
                    idx(old(self).dim(), x as int, y as int) as usize,
                )
                &&& final(self).phi() < old(self).phi()
                &&& cnt_flat(final(self).state.cells@, Cell::Empty, final(self).n()) < cnt_flat(
                    old(self).state.cells@,
                    Cell::Empty,
                    old(self).n(),
                )
            },
            old(self).state.cell(x as int, y as int) != Cell::Empty ==> final(self).state
                == old(self).state && final(self).cords_stack@ == old(self).cords_stack@,
            final(self).phi() <= old(self).phi(),
            cnt_flat(final(self).state.cells@, Cell::Empty, final(self).n()) <= cnt_flat(
                old(self).state.cells@,
                Cell::Empty,
                old(self).n(),
            ),
            forall|sol: State|
                solve_ok(old(self).init@, sol) && old(self).covered(sol) && (old(
                    self,
                ).state.cells@[idx(old(self).dim(), x as int, y as int)] == Cell::Empty && extends(
                    old(self).state.cells@,
                    sol.cells@,
                    old(self).n(),
                ) ==> sol.cells@[idx(old(self).dim(), x as int, y as int)] != Cell::Tent)
                    ==> final(self).covered(sol),
    {
        proof {
            lemma_idx_bounds(self.dim(), x as int, y as int);
        }
        // binding the length shows the index fits in a machine word
        let nn = self.state.cells.len();
        let new_cord = x + y * self.state.dim;
        if self.state.get_idx(new_cord) == Cell::Empty {
            self.cords_stack.push(new_cord);
            self.state.set_idx(new_cord, Cell::Grass);
            proof {
                let o = *old(self);
                let s1 = o.state.cells@;
                let s2 = self.state.cells@;
                let dim = o.dim();
                let n = o.n();
                let c = idx(dim, x as int, y as int);
                let t1 = o.cords_stack@;
                let t2 = self.cords_stack@;
                let m = t1.len() as int;
                lemma_cnt_flat_update(s1, Cell::Tree, c, Cell::Grass, n);
                lemma_cnt_flat_update(s1, Cell::Tent, c, Cell::Grass, n);
                lemma_cnt_flat_update(s1, Cell::Empty, c, Cell::Grass, n);
                assert forall|yy: int| 0 <= yy < dim implies cnt_row(s2, dim, yy, Cell::Tent, dim)
                    == cnt_row(s1, dim, yy, Cell::Tent, dim) by {
                    lemma_cnt_row_update(s1, dim, yy, Cell::Tent, Cell::Grass, x as int, y as int, dim);
                }
                assert forall|xx: int| 0 <= xx < dim implies cnt_col(s2, dim, xx, Cell::Tent, dim)
                    == cnt_col(s1, dim, xx, Cell::Tent, dim) by {
                    lemma_cnt_col_update(s1, dim, xx, Cell::Tent, Cell::Grass, x as int, y as int, dim);
                }
                // the marked cell was not on the trail: trail cells are decided
                assert forall|j: int| 0 <= j < m implies t1[j] != new_cord by {
                    assert(s1[t1[j] as int] != Cell::Empty);
                }
                // choice offsets are unchanged and the new entry is not one
                assert forall|j: int| 0 <= j < t2.len() implies (self.is_choice(j) <==> o.is_choice(
                    j,
                )) by {}
                assert(!o.is_choice(m)) by {
                    assert forall|k: int|
                        0 <= k < o.backtrack_stack@.len() implies o.backtrack_stack@[k] != m
                        + 1 by {
                        assert(o.backtrack_stack@[k] <= m);
                    }
                }
                assert forall|j: int|
                    0 <= j < t2.len() implies s2[t2[j] as int] == (if self.is_choice(j) {
                    Cell::Tent
                } else {
                    Cell::Grass
                }) by {
                    if j < m {
                        assert(t2[j] == t1[j]);
                        assert(t1[j] != new_cord);
                    }
                }
                // every decided cell that started undecided stays on the trail
                assert forall|p: int|
                    0 <= p < n && o.init@.cells@[p] == Cell::Empty && s2[p]
                    != Cell::Empty implies exists|j: int| 0 <= j < t2.len() && t2[j] == p by {
                    if p == c {
                        assert(t2[m] == new_cord);
                    } else {
                        assert(s1[p] != Cell::Empty);
                        let j = choose|j: int| 0 <= j < t1.len() && t1[j] == p;
                        assert(t2[j] == p);
                    }
                }
                // every reachable solution stays reachable: one that extends
                // the branch has grass here too, and the checkpoints are
                // untouched
                assert forall|sol: State|
                    solve_ok(o.init@, sol) && o.covered(sol) && (s1[c] == Cell::Empty && extends(
                        s1,
                        sol.cells@,
                        n,
                    ) ==> sol.cells@[c] != Cell::Tent) implies self.covered(sol) by {
                    assert(sol.cells@.len() == n);
                    if extends(s1, sol.cells@, n) {
                        assert(sol.cells@[c] != Cell::Empty);
                        assert(o.init@.cells@[c] != Cell::Tree);
                        assert(sol.cells@[c] != Cell::Tree);
                        assert(sol.cells@[c] == Cell::Grass);
                        assert(extends(s2, sol.cells@, n));
                    } else {
                        let k = choose|k: int|
                            0 <= k < o.backtrack_stack@.len() && o.alt_covers(k, sol);
                        assert(self.alt_covers(k, sol)) by {
                            let ob = o.backtrack_stack@[k] as int;
                            assert forall|j: int|
                                0 <= j < ob - 1 implies sol.cells@[t2[j] as int] == s2[t2[j] as int] by {
                                assert(t2[j] == t1[j]);
                                assert(t1[j] != new_cord);
                                assert(sol.cells@[t1[j] as int] == s1[t1[j] as int]);
                            }
                        }
                    }
                }
                // the termination measure shrinks: one more cell is decided
                lemma_cnt_flat_pos(s1, Cell::Empty, c, n);
                assert(o.cap() - m >= 1);
                lemma_pow3_mono(o.cap() - m - 1, o.cap() - m);
                assert(self.cap() == o.cap());
                assert(self.phi() < o.phi());
            }
        }
    }

    /// Places a tentative tent on the undecided cell `cord == (x, y)`,
    /// opening a checkpoint and consuming one unit of the cell's row and
    /// column counters.
    fn place_tent(&mut self, cord: usize, x: usize, y: usize)
        requires
            old(self).inv(),
            x < old(self).state.dim,
            y < old(self).state.dim,
            cord == idx(old(self).dim(), x as int, y as int),
            old(self).state.cells@[cord as int] == Cell::Empty,
            old(self).state.row_tents@[y as int] > 0,
            old(self).state.col_tents@[x as int] > 0,
        ensures
            final(self).inv(),
            final(self).init == old(self).init,
            final(self).state.dim == old(self).state.dim,
            final(self).n() == old(self).n(),
            final(self).phi() < old(self).phi(),
            cnt_flat(final(self).state.cells@, Cell::Empty, final(self).n()) < cnt_flat(
                old(self).state.cells@,
                Cell::Empty,
                old(self).n(),
            ),
            forall|sol: State|
                solve_ok(old(self).init@, sol) && old(self).covered(sol) ==> final(self).covered(
                    sol,
                ),
    {
        proof {
            lemma_idx_bounds(self.dim(), x as int, y as int);
            lemma_cnt_flat_pos(self.state.cells@, Cell::Empty, cord as int, self.n());
            lemma_cnt_flat_disjoint(self.state.cells@, Cell::Tent, Cell::Empty, self.n());
        }
        // binding the length bounds the counters below the word size
        let nn = self.state.cells.len();
        self.cords_stack.push(cord);
        self.backtrack_stack.push(self.cords_stack.len());
        self.state.set_idx(cord, Cell::Tent);
        self.tent_count = self.tent_count + 1;
        let rt = self.state.row_tents[y];
        self.state.row_tents.set(y, rt - 1);
        let ct = self.state.col_tents[x];
        self.state.col_tents.set(x, ct - 1);
        proof {
            let o = *old(self);
            let s1 = o.state.cells@;
            let s2 = self.state.cells@;
            let dim = o.dim();
            let n = o.n();
            let c = cord as int;
            let t1 = o.cords_stack@;
            let t2 = self.cords_stack@;
            let b1 = o.backtrack_stack@;
            let b2 = self.backtrack_stack@;
            let m = t1.len() as int;
            lemma_cnt_flat_update(s1, Cell::Tree, c, Cell::Tent, n);
            lemma_cnt_flat_update(s1, Cell::Tent, c, Cell::Tent, n);
            lemma_cnt_flat_update(s1, Cell::Empty, c, Cell::Tent, n);
            assert forall|yy: int| 0 <= yy < dim implies cnt_row(s2, dim, yy, Cell::Tent, dim)
                == cnt_row(s1, dim, yy, Cell::Tent, dim) + (if yy == y as int {
                1int
            } else {
                0int
            }) by {
                lemma_cnt_row_update(s1, dim, yy, Cell::Tent, Cell::Tent, x as int, y as int, dim);
            }
            assert forall|xx: int| 0 <= xx < dim implies cnt_col(s2, dim, xx, Cell::Tent, dim)
                == cnt_col(s1, dim, xx, Cell::Tent, dim) + (if xx == x as int {
                1int
            } else {
                0int
            }) by {
                lemma_cnt_col_update(s1, dim, xx, Cell::Tent, Cell::Tent, x as int, y as int, dim);
            }
            assert forall|j: int| 0 <= j < m implies t1[j] != cord by {
                assert(s1[t1[j] as int] != Cell::Empty);
            }
            // the new entry is a choice: its checkpoint is the last one
            assert(b2[b2.len() - 1] == m + 1);
            assert(self.is_choice(m));
            // older entries keep their status
            assert forall|j: int| 0 <= j < m implies (self.is_choice(j) <==> o.is_choice(j)) by {
                if self.is_choice(j) {
                    let k = choose|k: int| 0 <= k < b2.len() && b2[k] == j + 1;
                    assert(k < b1.len());
                    assert(o.is_choice(j));
                }
                if o.is_choice(j) {
                    let k = choose|k: int| 0 <= k < b1.len() && b1[k] == j + 1;
                    assert(b2[k] == j + 1);
                    assert(self.is_choice(j));
                }
            }
            assert forall|j: int|
                0 <= j < t2.len() implies s2[t2[j] as int] == (if self.is_choice(j) {
                Cell::Tent
            } else {
                Cell::Grass
            }) by {
                if j < m {
                    assert(t2[j] == t1[j]);
                    assert(t1[j] != cord);
                }
            }
            // checkpoint offsets stay strictly increasing and in range
            assert forall|k1: int, k2: int| 0 <= k1 < k2 < b2.len() implies b2[k1] < b2[k2] by {
                if k2 < b1.len() {
                } else {
                    assert(b2[k1] == b1[k1] <= m);
                }
            }
            // every decided cell that started undecided stays on the trail
            assert forall|p: int|
                0 <= p < n && o.init@.cells@[p] == Cell::Empty && s2[p]
                != Cell::Empty implies exists|j: int| 0 <= j < t2.len() && t2[j] == p by {
                if p == c {
                    assert(t2[m] == cord);
                } else {
                    assert(s1[p] != Cell::Empty);
                    let j = choose|j: int| 0 <= j < t1.len() && t1[j] == p;
                    assert(t2[j] == p);
                }
            }
            // every reachable solution stays reachable: one that extends the
            // branch either keeps the tent, or waits behind the checkpoint
            // just opened
            assert forall|sol: State|
                solve_ok(o.init@, sol) && o.covered(sol) implies self.covered(sol) by {
                assert(sol.cells@.len() == n);
                if extends(s1, sol.cells@, n) {
                    assert(sol.cells@[c] != Cell::Empty);
                    assert(o.init@.cells@[c] != Cell::Tree);
                    assert(sol.cells@[c] != Cell::Tree);
                    if sol.cells@[c] == Cell::Tent {
                        assert(extends(s2, sol.cells@, n));
                    } else {
                        assert(self.alt_covers(b2.len() - 1, sol)) by {
                            assert(b2[b2.len() - 1] == m + 1);
                            assert(t2[m] == cord);
                            assert forall|j: int|
                                0 <= j < m implies sol.cells@[t2[j] as int] == s2[t2[j] as int] by {
                                assert(t2[j] == t1[j]);
                                assert(t1[j] != cord);
                                assert(s1[t1[j] as int] != Cell::Empty);
                            }
                        }
                    }
                } else {
                    let k = choose|k: int| 0 <= k < b1.len() && o.alt_covers(k, sol);
                    assert(self.alt_covers(k, sol)) by {
                        let ob = b1[k] as int;
                        assert(b2[k] == b1[k]);
                        assert forall|j: int|
                            0 <= j < ob - 1 implies sol.cells@[t2[j] as int] == s2[t2[j] as int] by {
                            assert(t2[j] == t1[j]);
                            assert(t1[j] != cord);
                            assert(sol.cells@[t1[j] as int] == s1[t1[j] as int]);
                        }
                    }
                }
            }
            // the measure shrinks: the branch keeps strictly less room than
            // three times what the new checkpoint owes
            assert(o.cap() - m >= 1);
            assert(b2.drop_last() =~= b1);
            assert(phi_sum(b2, o.cap()) == phi_sum(b1, o.cap()) + pow3_i(o.cap() - m - 1));
            lemma_pow3_step(o.cap() - m);
            lemma_pow3_pos(o.cap() - m - 1);
            assert(self.cap() == o.cap());
            assert(self.phi() < o.phi());
        }
    }

    /// Pops the most recent checkpoint: reverts every trail entry after it
    /// to `Empty`, rules the tentative tent itself out as permanent grass,
    /// and hands the consumed row and column units back.
    #[verifier::rlimit(60)]
    fn backtrack_step(&mut self)
        requires
            old(self).inv(),
            old(self).backtrack_stack@.len() > 0,
        ensures
            final(self).inv(),
            final(self).init == old(self).init,
            final(self).state.dim == old(self).state.dim,
            final(self).n() == old(self).n(),
            final(self).phi() < old(self).phi(),
            forall|sol: State|
                solve_ok(old(self).init@, sol) && old(self).covered(sol) && !extends(
                    old(self).state.cells@,
                    sol.cells@,
                    old(self).n(),
                ) ==> final(self).covered(sol),
    {
        let ghost o = *old(self);
        let ghost s1 = o.state.cells@;
        let ghost t1 = o.cords_stack@;
        let ghost b1 = o.backtrack_stack@;
        let ghost dim = o.dim();
        let ghost n = o.n();
        let ghost m0 = t1.len() as int;
        let i = self.backtrack_stack.pop().unwrap();
        proof {
            assert(b1[b1.len() - 1] == i);
            assert(1 <= i <= m0);
            assert(self.backtrack_stack@ =~= b1.drop_last());
        }
        while self.cords_stack.len() > i
            invariant
                o.inv(),
                b1 == o.backtrack_stack@,
                t1 == o.cords_stack@,
                s1 == o.state.cells@,
                b1.len() > 0,
                i == b1[b1.len() - 1],
                1 <= i <= m0,
                m0 == t1.len(),
                n == o.n(),
                dim == o.dim(),
                self.init == o.init,
                self.state.dim == o.state.dim,
                self.state.cells@.len() == n,
                self.state.row_tents@ == o.state.row_tents@,
                self.state.col_tents@ == o.state.col_tents@,
                self.tent_count == o.tent_count,
                self.tree_count == o.tree_count,
                self.backtrack_stack@ == b1.drop_last(),
                i <= self.cords_stack@.len() <= m0,
                self.cords_stack@ == t1.take(self.cords_stack@.len() as int),
                forall|j: int|
                    self.cords_stack@.len() <= j < m0 ==> self.state.cells@[t1[j] as int]
                        == Cell::Empty,
                forall|p: int|
                    0 <= p < n && !reverted(t1, self.cords_stack@.len() as int, m0, p)
                        ==> self.state.cells@[p] == s1[p],
                forall|p: int|
                    0 <= p < n && o.init@.cells@[p] == Cell::Empty && self.state.cells@[p]
                        != Cell::Empty ==> exists|j: int|
                        0 <= j < self.cords_stack@.len() && self.cords_stack@[j] == p,
                cnt_flat(self.state.cells@, Cell::Tent, n) == cnt_flat(s1, Cell::Tent, n),
                cnt_flat(self.state.cells@, Cell::Tree, n) == cnt_flat(s1, Cell::Tree, n),
                cnt_flat(self.state.cells@, Cell::Empty, n) == cnt_flat(s1, Cell::Empty, n) + (m0
                    - self.cords_stack@.len()),
                forall|yy: int|
                    0 <= yy < dim ==> cnt_row(self.state.cells@, dim, yy, Cell::Tent, dim)
                        == cnt_row(s1, dim, yy, Cell::Tent, dim),
                forall|xx: int|
                    0 <= xx < dim ==> cnt_col(self.state.cells@, dim, xx, Cell::Tent, dim)
                        == cnt_col(s1, dim, xx, Cell::Tent, dim),
            decreases self.cords_stack@.len(),
        {
            let ghost lpre = self.cords_stack@.len() as int;
            let c = self.cords_stack.pop().unwrap();
            let ghost spre = self.state.cells@;
            proof {
                assert(c == t1[lpre - 1]);
                assert(self.cords_stack@ =~= t1.take(lpre - 1));
                assert(t1[lpre - 1] < n);
                // the popped entry is no checkpoint: those all sit at or
                // below the offset being unwound, so its cell is grass
                assert forall|j: int| lpre <= j < m0 implies t1[j] != c by {
                    assert(t1[lpre - 1] != t1[j]);
                }
                assert(!reverted(t1, lpre, m0, c as int));
                assert(spre[c as int] == s1[c as int]);
                assert(!o.is_choice(lpre - 1)) by {
                    assert forall|k: int| 0 <= k < b1.len() implies b1[k] != lpre by {
                        if k < b1.len() - 1 {
                            assert(b1[k] < b1[b1.len() - 1]);
                        }
                        assert(b1[k] <= i);
                        assert(i < lpre);
                    }
                }
                assert(s1[c as int] == Cell::Grass);
            }
            self.state.set_idx(c, Cell::Empty);
            proof {
                let lnow = lpre - 1;
                let s2 = self.state.cells@;
                lemma_cnt_flat_update(spre, Cell::Tent, c as int, Cell::Empty, n);
                lemma_cnt_flat_update(spre, Cell::Tree, c as int, Cell::Empty, n);
                lemma_cnt_flat_update(spre, Cell::Empty, c as int, Cell::Empty, n);
                crate::space::lemma_flat_decompose(dim, c as int);
                let cx = c as int % dim;
                let cy = c as int / dim;
                assert forall|yy: int| 0 <= yy < dim implies cnt_row(s2, dim, yy, Cell::Tent, dim)
                    == cnt_row(spre, dim, yy, Cell::Tent, dim) by {
                    lemma_cnt_row_update(spre, dim, yy, Cell::Tent, Cell::Empty, cx, cy, dim);
                }
                assert forall|xx: int| 0 <= xx < dim implies cnt_col(s2, dim, xx, Cell::Tent, dim)
                    == cnt_col(spre, dim, xx, Cell::Tent, dim) by {
                    lemma_cnt_col_update(spre, dim, xx, Cell::Tent, Cell::Empty, cx, cy, dim);
                }
                assert forall|p: int|
                    0 <= p < n && !reverted(t1, lnow, m0, p) implies s2[p] == s1[p] by {
                    assert(!reverted(t1, lpre, m0, p));
                    assert(p != c as int);
                }
                assert forall|j: int|
                    lnow <= j < m0 implies s2[t1[j] as int] == Cell::Empty by {
                    if j > lnow {
                        assert(t1[j] != c);
                    }
                }
                assert forall|p: int|
                    0 <= p < n && o.init@.cells@[p] == Cell::Empty && s2[p]
                    != Cell::Empty implies exists|j: int|
                    0 <= j < lnow && self.cords_stack@[j] == p by {
                    assert(p != c as int);
                    assert(spre[p] != Cell::Empty);
                    let j = choose|j: int| 0 <= j < lpre && t1.take(lpre)[j] == p;
                    assert(j != lpre - 1);
                    assert(self.cords_stack@[j] == p);
                }
            }
        }
        // the tentative tent of this checkpoint stays on the trail but is
        // now ruled out for good
        let cord = self.cords_stack[i - 1];
        proof {
            assert(cord == t1[i - 1]);
            assert(o.is_choice(i - 1)) by {
                assert(b1[b1.len() - 1] == i);
            }
            assert(s1[cord as int] == Cell::Tent);
            assert(!reverted(t1, i as int, m0, cord as int)) by {
                assert forall|j: int| i <= j < m0 implies t1[j] != cord by {
                    assert(t1[i - 1] != t1[j]);
                }
            }
            assert(self.state.cells@[cord as int] == Cell::Tent);
            assert(cord < n);
            assert(self.state.dim > 0) by (nonlinear_arith)
                requires
                    cord < n,
                    n == self.state.dim * self.state.dim,
            ;
        }
        let xy = self.state.index_to_xy(cord);
        let x = xy.0;
        let y = xy.1;
        let ghost smid = self.state.cells@;
        proof {
            // the counters can take their unit back without overflowing:
            // the board holds strictly more tents in this row and column
            // than the starting board did
            let init = o.init@;
            assert forall|yy: int|
                0 <= yy < dim implies (init.cells@[idx(dim, x as int, yy)] == Cell::Tent
                ==> smid[idx(dim, x as int, yy)] == Cell::Tent) by {
                lemma_idx_bounds(dim, x as int, yy);
            }
            assert(init.cells@[cord as int] == Cell::Empty);
            lemma_cnt_col_grow(init.cells@, smid, dim, x as int, Cell::Tent, dim, y as int);
            assert forall|xx: int|
                0 <= xx < dim implies (init.cells@[idx(dim, xx, y as int)] == Cell::Tent
                ==> smid[idx(dim, xx, y as int)] == Cell::Tent) by {
                lemma_idx_bounds(dim, xx, y as int);
            }
            lemma_cnt_row_grow(init.cells@, smid, dim, y as int, Cell::Tent, dim, x as int);
            assert(self.state.col_tents@[x as int] < init.col_tents@[x as int]);
            assert(self.state.row_tents@[y as int] < init.row_tents@[y as int]);
            lemma_cnt_flat_bounds(init.cells@, Cell::Tent, n);
        }
        self.state.set_idx(cord, Cell::Grass);
        let ct = self.state.col_tents[x];
        self.state.col_tents.set(x, ct + 1);
        let rt = self.state.row_tents[y];
        self.state.row_tents.set(y, rt + 1);
        self.tent_count = self.tent_count - 1;
        proof {
            let init = o.init@;
            let s2 = self.state.cells@;
            let b2 = self.backtrack_stack@;
            let t2 = self.cords_stack@;
            lemma_cnt_flat_update(smid, Cell::Tent, cord as int, Cell::Grass, n);
            lemma_cnt_flat_update(smid, Cell::Tree, cord as int, Cell::Grass, n);
            lemma_cnt_flat_update(smid, Cell::Empty, cord as int, Cell::Grass, n);
            assert forall|yy: int| 0 <= yy < dim implies cnt_row(s2, dim, yy, Cell::Tent, dim)
                == cnt_row(smid, dim, yy, Cell::Tent, dim) - (if yy == y as int {
                1int
            } else {
                0int
            }) by {
                lemma_cnt_row_update(smid, dim, yy, Cell::Tent, Cell::Grass, x as int, y as int, dim);
            }
            assert forall|xx: int| 0 <= xx < dim implies cnt_col(s2, dim, xx, Cell::Tent, dim)
                == cnt_col(smid, dim, xx, Cell::Tent, dim) - (if xx == x as int {
                1int
            } else {
                0int
            }) by {
                lemma_cnt_col_update(smid, dim, xx, Cell::Tent, Cell::Grass, x as int, y as int, dim);
            }
            // the surviving trail keeps its recorded decisions
            assert forall|j: int| 0 <= j < i - 1 implies (self.is_choice(j) <==> o.is_choice(
                j,
            )) by {
                if self.is_choice(j) {
                    let k = choose|k: int| 0 <= k < b2.len() && b2[k] == j + 1;
                    assert(b1[k] == j + 1);
                    assert(o.is_choice(j));
                }
                if o.is_choice(j) {
                    let k = choose|k: int| 0 <= k < b1.len() && b1[k] == j + 1;
                    assert(b1[k] <= i - 1 + 1);
                    assert(k < b1.len() - 1) by {
                        assert(b1[b1.len() - 1] == i);
                        assert(j + 1 < i + 1);
                    }
                    assert(b2[k] == j + 1);
                    assert(self.is_choice(j));
                }
            }
            assert(!self.is_choice(i - 1)) by {
                assert forall|k: int| 0 <= k < b2.len() implies b2[k] != i by {
                    assert(b1[k] < b1[b1.len() - 1]);
                }
            }
            assert forall|j: int|
                0 <= j < t2.len() implies s2[t2[j] as int] == (if self.is_choice(j) {
                Cell::Tent
            } else {
                Cell::Grass
            }) by {
                assert(t2[j] == t1[j]);
                if j < i - 1 {
                    assert(t1[j] != cord) by {
                        assert(t1[j] != t1[i - 1]);
                    }
                    assert(!reverted(t1, i as int, m0, t1[j] as int)) by {
                        assert forall|jj: int| i <= jj < m0 implies t1[jj] != t1[j] by {}
                    }
                    assert(s2[t1[j] as int] == s1[t1[j] as int]);
                }
            }
            // every decided cell that started undecided stays on the trail
            assert forall|p: int|
                0 <= p < n && init.cells@[p] == Cell::Empty && s2[p]
                != Cell::Empty implies exists|j: int| 0 <= j < t2.len() && t2[j] == p by {
                if p == cord as int {
                    assert(t2[i - 1] == cord);
                } else {
                    assert(smid[p] != Cell::Empty);
                    let j = choose|j: int| 0 <= j < i && t2[j] == p;
                    assert(t2[j] == p);
                }
            }
            // the measure drops by the full weight of the abandoned branch
            assert(phi_sum(b1, o.cap()) == phi_sum(b1.drop_last(), o.cap()) + pow3_i(
                o.cap() - i,
            ));
            lemma_cnt_flat_bounds(s1, Cell::Empty, n);
            assert(o.cap() - m0 >= 0);
            lemma_pow3_pos(o.cap() - m0);
            lemma_phi_sum_nonneg(b1.drop_last(), o.cap());
            assert(self.cap() == o.cap());
            assert(self.phi() < o.phi());
            // every reachable solution stays reachable: one waiting behind
            // the popped checkpoint now extends the branch, the others keep
            // their checkpoints
            assert forall|sol: State|
                solve_ok(o.init@, sol) && o.covered(sol) && !extends(s1, sol.cells@, n)
                    implies self.covered(sol) by {
                assert(sol.cells@.len() == n);
                let k = choose|k: int| 0 <= k < b1.len() && o.alt_covers(k, sol);
                if k < b1.len() - 1 {
                    assert(self.alt_covers(k, sol)) by {
                        let ob = b1[k] as int;
                        assert(b2[k] == b1[k]);
                        assert(ob < i);
                        assert forall|j: int|
                            0 <= j < ob - 1 implies sol.cells@[t2[j] as int] == s2[t2[j] as int] by {
                            assert(t2[j] == t1[j]);
                            assert(t1[j] != t1[i - 1]);
                            assert(!reverted(t1, i as int, m0, t1[j] as int)) by {
                                assert forall|jj: int| i <= jj < m0 implies t1[jj] != t1[j] by {}
                            }
                            assert(smid[t1[j] as int] == s1[t1[j] as int]);
                            assert(sol.cells@[t1[j] as int] == s1[t1[j] as int]);
                        }
                    }
                } else {
                    assert(o.alt_covers(b1.len() - 1, sol));
                    assert(sol.cells@[cord as int] == Cell::Grass);
                    assert(extends(s2, sol.cells@, n)) by {
                        assert forall|p: int|
                            0 <= p < n && s2[p] != Cell::Empty implies sol.cells@[p] == s2[p] by {
                            if p != cord as int {
                                assert(s2[p] == smid[p]);
                                if reverted(t1, i as int, m0, p) {
                                    let j = choose|j: int|
                                        i <= j < m0 && 0 <= j < t1.len() && t1[j] == p;
                                    assert(smid[t1[j] as int] == Cell::Empty);
                                    assert(false);
                                }
                                assert(smid[p] == s1[p]);
                                if init.cells@[p] != Cell::Empty {
                                    assert(sol.cells@[p] == init.cells@[p]);
                                    assert(s1[p] == init.cells@[p]);
                                } else {
                                    // started undecided yet decided: a cell
                                    // of the surviving trail prefix
                                    let j = choose|j: int| 0 <= j < t1.len() && t1[j] == p;
                                    assert(j < i - 1) by {
                                        if j >= i {
                                            assert(reverted(t1, i as int, m0, p));
                                        }
                                        if j == i - 1 {
                                            assert(p == cord as int);
                                        }
                                    }
                                    assert(sol.cells@[t1[j] as int] == s1[t1[j] as int]);
                                }
                            }
                        }
                    }
                }
            }
        }
    }
}

/// Some trail entry with offset in `[lo, hi)` records flat index `p`.
pub open spec fn reverted(t: Seq<usize>, lo: int, hi: int, p: int) -> bool {
    exists|j: int| lo <= j < hi && 0 <= j < t.len() && t[j] == p
}

/// Everything `apply` (and `State::solve`) guarantees of a returned board,
/// relative to the board it was given: the result is a fully checked
/// solution, trees and already-decided cells are untouched, the tents
/// balance the trees, and every row and column counter plus the tents
/// standing in it is conserved.
pub open spec fn solve_ok(pre: State, post: State) -> bool {
    let n = post.cells@.len() as int;
    let dim = pre.dim as int;
    &&& pre.wf()
    &&& post.wf()
    &&& post.dim == pre.dim
    &&& solved_spec(post)
    &&& cnt_flat(post.cells@, Cell::Tent, n) == cnt_flat(post.cells@, Cell::Tree, n)
    &&& forall|i: int|
        0 <= i < n ==> ((post.cells@[i] == Cell::Tree) <==> (pre.cells@[i] == Cell::Tree))
    &&& forall|i: int|
        0 <= i < n && pre.cells@[i] != Cell::Empty ==> post.cells@[i] == pre.cells@[i]
    &&& forall|y: int|
        0 <= y < dim ==> post.row_tents@[y] + cnt_row(post.cells@, dim, y, Cell::Tent, dim)
            == pre.row_tents@[y] + cnt_row(pre.cells@, dim, y, Cell::Tent, dim)
    &&& forall|x: int|
        0 <= x < dim ==> post.col_tents@[x] + cnt_col(post.cells@, dim, x, Cell::Tent, dim)
            == pre.col_tents@[x] + cnt_col(pre.cells@, dim, x, Cell::Tent, dim)
}

impl Backtrack {
    /// Runs the search to completion. Returns `true` exactly when the board
    /// has been brought to a fully checked solution; after `false` the
    /// search has exhausted its checkpoints and the board is left partial.
    pub fn run(&mut self) -> (solved: bool)
        requires
            old(self).inv(),
        ensures
            final(self).inv(),
            final(self).init == old(self).init,
            final(self).state.dim == old(self).state.dim,
            solved ==> solved_spec(final(self).state) && final(self).tent_count == final(self).tree_count,
            (solved_spec(old(self).state) && old(self).tent_count == old(self).tree_count)
                ==> solved,
    {
        proof {
            lemma_phi_nonneg(*self);
        }
        loop
            invariant
                self.inv(),
                self.init == old(self).init,
                self.state.dim == old(self).state.dim,
                self.phi() >= 0,
                (solved_spec(old(self).state) && old(self).tent_count == old(self).tree_count)
                    ==> *self == *old(self),
            decreases self.phi(),
        {
            let ghost phi0 = self.phi();
            let mut progressed = false;
            loop
                invariant
                    self.inv(),
                    self.init == old(self).init,
                    self.state.dim == old(self).state.dim,
                    self.phi() <= phi0,
                    progressed ==> self.phi() < phi0,
                    (solved_spec(old(self).state) && old(self).tent_count == old(self).tree_count)
                        ==> *self == *old(self),
                ensures
                    self.inv(),
                    self.init == old(self).init,
                    self.state.dim == old(self).state.dim,
                    self.phi() <= phi0,
                    progressed ==> self.phi() < phi0,
                    (solved_spec(old(self).state) && old(self).tent_count == old(self).tree_count)
                        ==> *self == *old(self),
                    forall|j: int|
                        0 <= j < self.state.cells@.len() ==> self.state.cells@[j] != Cell::Empty,
                decreases cnt_flat(self.state.cells@, Cell::Empty, self.n()),
            {
                proof {
                    lemma_cnt_flat_bounds(self.state.cells@, Cell::Empty, self.n());
                }
                let ghost e0 = cnt_flat(self.state.cells@, Cell::Empty, self.n());
                let next = self.state.find_empty();
                match next {
                    None => {
                        break;
                    },
                    Some(cord) => {
                        proof {
                            // an already-solved board has no undecided cell,
                            // so this branch cannot be reached from one
                            if solved_spec(old(self).state) && old(self).tent_count == old(
                                self,
                            ).tree_count {
                                assert(self.state.cells@[cord as int] == Cell::Empty);
                                assert(false);
                            }
                            assert(self.state.dim > 0) by (nonlinear_arith)
                                requires
                                    cord < self.state.cells@.len(),
                                    self.state.cells@.len() == self.state.dim * self.state.dim,
                            ;
                        }
                        let xy = self.state.index_to_xy(cord);
                        let x = xy.0;
                        let y = xy.1;
                        let dim = self.state.dim;
                        if self.state.row_tents[y] == 0 || self.state.col_tents[x] == 0 {
                            // the cell cannot hold a tent: its row or its
                            // column needs no further tent
                            self.mark_green(x, y);
                        } else {
                            self.place_tent(cord, x, y);
                            let ghost phi_t = self.phi();
                            let ghost e_t = cnt_flat(self.state.cells@, Cell::Empty, self.n());
                            if self.state.col_tents[x] == 0 {
                                let mut yy: usize = 0;
                                while yy < dim
                                    invariant
                                        self.inv(),
                                        self.init == old(self).init,
                                        self.state.dim == old(self).state.dim,
                                        dim == self.state.dim,
                                        x < dim,
                                        yy <= dim,
                                        self.phi() <= phi_t,
                                        cnt_flat(self.state.cells@, Cell::Empty, self.n()) <= e_t,
                                    decreases dim - yy,
                                {
                                    self.mark_green(x, yy);
                                    yy = yy + 1;
                                }
                            }
                            if self.state.row_tents[y] == 0 {
                                let mut xx: usize = 0;
                                while xx < dim
                                    invariant
                                        self.inv(),
                                        self.init == old(self).init,
                                        self.state.dim == old(self).state.dim,
                                        dim == self.state.dim,
                                        y < dim,
                                        xx <= dim,
                                        self.phi() <= phi_t,
                                        cnt_flat(self.state.cells@, Cell::Empty, self.n()) <= e_t,
                                    decreases dim - xx,
                                {
                                    self.mark_green(xx, y);
                                    xx = xx + 1;
                                }
                            }
                            // no tent may stand next to the new one
                            if x > 0 {
                                self.mark_green(x - 1, y);
                            }
                            if x + 1 < dim {
                                self.mark_green(x + 1, y);
                            }
                            if y > 0 {
                                self.mark_green(x, y - 1);
                            }
                            if y + 1 < dim {
                                self.mark_green(x, y + 1);
                            }
                            if x > 0 && y > 0 {
                                self.mark_green(x - 1, y - 1);
                            }
                            if x > 0 && y + 1 < dim {
                                self.mark_green(x - 1, y + 1);
                            }
                            if x + 1 < dim && y > 0 {
                                self.mark_green(x + 1, y - 1);
                            }
                            if x + 1 < dim && y + 1 < dim {
                                self.mark_green(x + 1, y + 1);
                            }
                        }
                        progressed = true;
                        proof {
                            lemma_cnt_flat_bounds(self.state.cells@, Cell::Empty, self.n());
                            assert(cnt_flat(self.state.cells@, Cell::Empty, self.n()) < e0);
                        }
                    },
                }
            }
            if self.tent_count == self.tree_count {
                if self.state.is_solved() {
                    return true;
                }
            }
            if self.backtrack_stack.len() > 0 {
                self.backtrack_step();
            } else {
                return false;
            }
            proof {
                lemma_phi_nonneg(*self);
            }
        }
    }

    /// Builds the engine around a prepared board and runs the search,
    /// handing the solved board back or reporting that none exists.
    pub fn apply(state: State) -> (r: Result<State, Unsolvable>)
        requires
            state.wf(),
        ensures
            match r {
                Ok(post) => solve_ok(state, post),
                Err(_) => true,
            },
            (state.tentless() && (crate::count::sum_u8(state.row_tents@, state.dim as int)
                != cnt_flat(state.cells@, Cell::Tree, state.cells@.len() as int)
                || crate::count::sum_u8(state.col_tents@, state.dim as int) != cnt_flat(
                state.cells@,
                Cell::Tree,
                state.cells@.len() as int,
            ))) ==> r is Err,
            (solved_spec(state) && cnt_flat(state.cells@, Cell::Tent, state.cells@.len() as int)
                == cnt_flat(state.cells@, Cell::Tree, state.cells@.len() as int)) ==> r is Ok,
    {
        let tree_count = state.count_cells(Cell::Tree);
        let tent_count = state.count_cells(Cell::Tent);
        let mut backtrack = Backtrack {
            init: Ghost(state),
            state,
            tree_count,
            tent_count,
            cords_stack: Vec::new(),
            backtrack_stack: Vec::new(),
        };
        proof {
            assert(backtrack.inv());
        }
        let solved = backtrack.run();
        if solved {
            proof {
                assert(solve_ok(state, backtrack.state));
                if state.tentless() {
                    crate::laws::lemma_solved_sums(state, backtrack.state);
                }
            }
            Ok(backtrack.state)
        } else {
            Err(Unsolvable)
        }
    }
}

} // verus!
