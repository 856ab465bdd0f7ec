//! Canonical form of the stabilizer generators by Gaussian elimination
//! over GF(2), carried out in lock-step on the destabilizers.

use crate::pauli::{
    anticommutes, first_set, lemma_anticommutes_products, lemma_commutes_with_self,
    lemma_first_set, lemma_product_hermitian, product, PauliRow,
};
use crate::simulator::CliffordSimulator;
use crate::tableau::Tableau;
use vstd::prelude::*;

verus! {

impl Tableau {
    /// Exchanges the stabilizers in rows `i` and `k`, and their
    /// destabilizers with them.
    pub open spec fn swap_pair(self, i: int, k: int) -> Tableau {
        Tableau {
            n: self.n,
            rows: self.rows.update(i, self.rows[k]).update(k, self.rows[i]).update(
                i - self.n,
                self.rows[k - self.n],
            ).update(k - self.n, self.rows[i - self.n]),
        }
    }

    /// Multiplies the stabilizer in row `z` by the stabilizer in row `i`,
    /// and the destabilizer paired with row `i` by the one paired with row
    /// `z`.
    pub open spec fn reduce_pair(self, i: int, z: int) -> Tableau {
        Tableau {
            n: self.n,
            rows: self.rows.update(z, product(self.rows[z], self.rows[i])).update(
                i - self.n,
                product(self.rows[i - self.n], self.rows[z - self.n]),
            ),
        }
    }

    /// Clears column `col` in the stabilizer rows `i + 1 .. hi` by
    /// multiplying each row that has the bit set by row `i`, in increasing
    /// order.
    pub open spec fn eliminate(self, col: int, i: int, hi: int) -> Tableau
        decreases hi - i,
    {
        if hi <= i + 1 {
            self
        } else {
            let t = self.eliminate(col, i, hi - 1);
            if t.rows[hi - 1].bit(col) {
                t.reduce_pair(i, hi - 1)
            } else {
                t
            }
        }
    }

    /// One pivot step on column `col` with `i` the first stabilizer row not
    /// yet used as a pivot: the first row from `i` on with the bit set is
    /// moved to row `i` and the bit is cleared in the rows after it.
    /// Returns the tableau and the next free row; without such a row both
    /// stay as they are.
    pub open spec fn pivot(self, col: int, i: int) -> (Tableau, int) {
        let k = first_set(self.rows, col, i, 2 * self.n as int);
        if k < 2 * self.n {
            (self.swap_pair(i, k).eliminate(col, i, 2 * self.n as int), i + 1)
        } else {
            (self, i)
        }
    }

    /// Pivot steps on the columns `first .. first + count`, from left to
    /// right, starting with `i` as the first free row.
    pub open spec fn sweep(self, first: int, count: nat, i: int) -> (Tableau, int)
        decreases count,
    {
        if count == 0 {
            (self, i)
        } else {
            let (t, j) = self.sweep(first, (count - 1) as nat, i);
            t.pivot(first + count - 1, j)
        }
    }

    /// The scratch row after one pivot step: the exchange of two rows goes
    /// through the scratch row and leaves in it the destabilizer that was
    /// paired with the row found; without such a row it stays as it is.
    pub open spec fn pivot_scratch(self, col: int, i: int, scratch: PauliRow) -> PauliRow {
        let k = first_set(self.rows, col, i, 2 * self.n as int);
        if k < 2 * self.n {
            self.rows[k - self.n]
        } else {
            scratch
        }
    }

    /// The scratch row after the pivot steps of `sweep`.
    pub open spec fn sweep_scratch(self, first: int, count: nat, i: int, scratch: PauliRow)
        -> PauliRow
        decreases count,
    {
        if count == 0 {
            scratch
        } else {
            let (t, j) = self.sweep(first, (count - 1) as nat, i);
            t.pivot_scratch(
                first + count - 1,
                j,
                self.sweep_scratch(first, (count - 1) as nat, i, scratch),
            )
        }
    }

    /// The scratch row after the tableau has been brought into canonical
    /// form.
    pub open spec fn canonical_scratch(self, scratch: PauliRow) -> PauliRow {
        let (t, i) = self.sweep(0, self.n, self.n as int);
        t.sweep_scratch(
            self.n as int,
            self.n,
            i,
            self.sweep_scratch(0, self.n, self.n as int, scratch),
        )
    }

    /// The rows from `lo` on have no X bit on the qubits below `cols`.
    pub open spec fn x_clear(self, lo: int, cols: int) -> bool {
        forall|r: int, c: int| lo <= r < 2 * self.n && 0 <= c < cols ==> !self.rows[r].x[c]
    }

    /// The number of stabilizer rows that the sweep over the X columns uses
    /// as pivots: the rank of the X part of the stabilizers.
    pub open spec fn rank(self) -> int {
        self.sweep(0, self.n, self.n as int).1 - self.n
    }

    /// The canonical form: a sweep over the X columns, then a sweep over
    /// the Z columns on the rows that the first sweep left free.
    pub open spec fn canonical(self) -> Tableau {
        let (t, i) = self.sweep(0, self.n, self.n as int);
        t.sweep(self.n as int, self.n, i).0
    }
}

/// The exchange of two stabilizers with their destabilizers gives a
/// tableau on the same qubits, in which the two stabilizers have changed
/// places and every other stabilizer is where it was.
pub proof fn lemma_swap_pair_rows(t: Tableau, i: int, k: int)
    requires
        t.wf(),
        t.n <= i < 2 * t.n,
        t.n <= k < 2 * t.n,
    ensures
        t.swap_pair(i, k).wf(),
        forall|r: int|
            t.n <= r < 2 * t.n ==> #[trigger] t.swap_pair(i, k).rows[r] == if r == k {
                t.rows[i]
            } else if r == i {
                t.rows[k]
            } else {
                t.rows[r]
            },
{
    let n = t.n;
    let s = t.swap_pair(i, k);
    assert forall|r: int| 0 <= r < 2 * n implies (#[trigger] s.rows[r]).wf(n) by {
        assert(t.rows[r].wf(n));
        assert(t.rows[i].wf(n) && t.rows[k].wf(n) && t.rows[i - n].wf(n) && t.rows[k - n].wf(n));
    }
}

/// Exchanging two stabilizers together with their destabilizers keeps a
/// stabilizer state a stabilizer state.
pub proof fn lemma_swap_pair_keeps_state(t: Tableau, i: int, k: int)
    requires
        t.is_stabilizer_state(),
        t.n <= i < 2 * t.n,
        t.n <= k < 2 * t.n,
    ensures
        t.swap_pair(i, k).is_stabilizer_state(),
        t.complete() ==> t.swap_pair(i, k).complete(),
{
    let n = t.n;
    let u = t.swap_pair(i, k);
    let perm = |r: int|
        if r == i {
            k
        } else if r == k {
            i
        } else if r == i - n {
            k - n
        } else if r == k - n {
            i - n
        } else {
            r
        };
    assert forall|r: int| 0 <= r < 2 * n implies #[trigger] u.rows[r] == t.rows[perm(r)] by {}
    assert forall|r: int| 0 <= r < u.rows.len() implies (#[trigger] u.rows[r]).wf(n) by {
        assert(t.rows[perm(r)].wf(n));
    }
    assert forall|s: int| n <= s < 2 * n implies (#[trigger] u.rows[s]).is_hermitian() by {
        assert(t.rows[perm(s)].is_hermitian());
    }
    assert forall|s: int, v: int| n <= s < 2 * n && n <= v < 2 * n implies !anticommutes(
        u.rows[s],
        u.rows[v],
    ) by {
        assert(!anticommutes(t.rows[perm(s)], t.rows[perm(v)]));
    }
    assert forall|d: int, s: int| 0 <= d < n && n <= s < 2 * n implies anticommutes(
        u.rows[d],
        u.rows[s],
    ) == (s == d + n) by {
        assert(anticommutes(t.rows[perm(d)], t.rows[perm(s)]) == (perm(s) == perm(d) + n));
    }
    if t.complete() {
        assert(u.complete()) by {
            reveal(Tableau::complete);
            assert forall|v: PauliRow|
                #[trigger] v.wf(n) && u.commutes_with_all(v) implies v.is_scalar() by {
                assert forall|r: int|
                    0 <= r < 2 * n implies !anticommutes(v, #[trigger] t.rows[r]) by {
                    assert(t.rows[r] == u.rows[perm(r)]);
                }
                assert(t.commutes_with_all(v));
            }
        }
    }
}

/// Multiplying one stabilizer by another, and the destabilizer of the
/// second by that of the first, keeps a stabilizer state a stabilizer
/// state.
pub proof fn lemma_reduce_pair_keeps_state(t: Tableau, i: int, z: int)
    requires
        t.is_stabilizer_state(),
        t.n <= i < 2 * t.n,
        t.n <= z < 2 * t.n,
        i != z,
    ensures
        t.reduce_pair(i, z).is_stabilizer_state(),
        t.complete() ==> t.reduce_pair(i, z).complete(),
{
    let n = t.n;
    let u = t.reduce_pair(i, z);
    let si = t.rows[i];
    let sz = t.rows[z];
    let di = t.rows[i - n];
    let dz = t.rows[z - n];
    assert(si.wf(n) && sz.wf(n) && di.wf(n) && dz.wf(n));
    assert(!anticommutes(sz, si));
    assert(sz.is_hermitian() && si.is_hermitian());
    lemma_product_hermitian(sz, si);
    lemma_commutes_with_self(product(sz, si), n);
    assert forall|r: int| 0 <= r < u.rows.len() implies (#[trigger] u.rows[r]).wf(n) by {
        assert(t.rows[r].wf(n));
    }
    assert forall|s: int| n <= s < 2 * n implies (#[trigger] u.rows[s]).is_hermitian() by {
        assert(t.rows[s].is_hermitian());
    }
    assert forall|s: int, v: int| n <= s < 2 * n && n <= v < 2 * n implies !anticommutes(
        u.rows[s],
        u.rows[v],
    ) by {
        assert(t.rows[s].wf(n) && t.rows[v].wf(n));
        assert(!anticommutes(t.rows[s], t.rows[v]));
        assert(!anticommutes(si, t.rows[v]));
        assert(!anticommutes(t.rows[s], si));
        lemma_anticommutes_products(sz, si, t.rows[v], t.rows[v], n);
        lemma_anticommutes_products(sz, si, t.rows[s], t.rows[s], n);
    }
    assert forall|d: int, s: int| 0 <= d < n && n <= s < 2 * n implies anticommutes(
        u.rows[d],
        u.rows[s],
    ) == (s == d + n) by {
        assert(t.rows[s].wf(n) && t.rows[d].wf(n));
        assert(anticommutes(t.rows[d], t.rows[s]) == (s == d + n));
        assert(anticommutes(t.rows[d], si) == (i == d + n));
        assert(anticommutes(t.rows[d], sz) == (z == d + n));
        assert(anticommutes(di, t.rows[s]) == (s == i));
        assert(anticommutes(dz, t.rows[s]) == (s == z));
        assert(anticommutes(di, si));
        assert(anticommutes(dz, sz));
        assert(!anticommutes(di, sz));
        assert(!anticommutes(dz, si));
        lemma_anticommutes_products(di, dz, sz, si, n);
        lemma_anticommutes_products(di, dz, t.rows[s], t.rows[s], n);
        lemma_anticommutes_products(sz, si, t.rows[d], t.rows[d], n);
    }
    if t.complete() {
        assert(u.complete()) by {
            reveal(Tableau::complete);
            assert forall|v: PauliRow|
                #[trigger] v.wf(n) && u.commutes_with_all(v) implies v.is_scalar() by {
                assert(!anticommutes(v, u.rows[i]) && !anticommutes(v, u.rows[z]));
                assert(!anticommutes(v, u.rows[z - n]) && !anticommutes(v, u.rows[i - n]));
                lemma_anticommutes_products(sz, si, v, v, n);
                lemma_anticommutes_products(di, dz, v, v, n);
                assert forall|r: int|
                    0 <= r < 2 * n implies !anticommutes(v, #[trigger] t.rows[r]) by {
                    assert(!anticommutes(v, u.rows[r]));
                }
                assert(t.commutes_with_all(v));
            }
        }
    }
}

/// Elimination keeps the shape of a tableau and, for a stabilizer state,
/// the stabilizer-state invariant.
pub proof fn lemma_eliminate_keeps_state(t: Tableau, col: int, i: int, hi: int)
    requires
        t.wf(),
        t.n <= i < 2 * t.n,
        hi <= 2 * t.n,
    ensures
        t.eliminate(col, i, hi).wf(),
        t.eliminate(col, i, hi).n == t.n,
        t.is_stabilizer_state() ==> t.eliminate(col, i, hi).is_stabilizer_state(),
        t.is_complete_state() ==> t.eliminate(col, i, hi).is_complete_state(),
    decreases hi - i,
{
    if hi > i + 1 {
        lemma_eliminate_keeps_state(t, col, i, hi - 1);
        let u = t.eliminate(col, i, hi - 1);
        if u.rows[hi - 1].bit(col) {
            assert(u.rows[hi - 1].wf(u.n) && u.rows[i].wf(u.n));
            assert(u.rows[hi - 1 - u.n].wf(u.n) && u.rows[i - u.n].wf(u.n));
            assert forall|r: int| 0 <= r < 2 * u.n implies (#[trigger] u.reduce_pair(
                i,
                hi - 1,
            ).rows[r]).wf(u.n) by {
                assert(u.rows[r].wf(u.n));
            }
            if t.is_stabilizer_state() {
                lemma_reduce_pair_keeps_state(u, i, hi - 1);
            }
        }
    }
}

/// A pivot step keeps the shape of a tableau, moves the free row forward
/// by at most one, and keeps a stabilizer state a stabilizer state.
pub proof fn lemma_pivot_keeps_state(t: Tableau, col: int, i: int)
    requires
        t.wf(),
        t.n <= i <= 2 * t.n,
    ensures
        t.pivot(col, i).0.wf(),
        t.pivot(col, i).0.n == t.n,
        i <= t.pivot(col, i).1 <= i + 1,
        t.pivot(col, i).1 <= 2 * t.n,
        t.is_stabilizer_state() ==> t.pivot(col, i).0.is_stabilizer_state(),
        t.is_complete_state() ==> t.pivot(col, i).0.is_complete_state(),
{
    let n = t.n;
    lemma_first_set(t.rows, col, i, 2 * n as int);
    let k = first_set(t.rows, col, i, 2 * n as int);
    if k < 2 * n {
        let u = t.swap_pair(i, k);
        assert forall|r: int| 0 <= r < 2 * n implies (#[trigger] u.rows[r]).wf(n) by {
            assert(t.rows[r].wf(n));
            assert(t.rows[i].wf(n) && t.rows[k].wf(n) && t.rows[i - n].wf(n) && t.rows[k
                - n].wf(n));
        }
        if t.is_stabilizer_state() {
            lemma_swap_pair_keeps_state(t, i, k);
        }
        lemma_eliminate_keeps_state(u, col, i, 2 * n as int);
    }
}

/// A sweep keeps the shape of a tableau, leaves the free row within the
/// stabilizer rows, and keeps a stabilizer state a stabilizer state.
pub proof fn lemma_sweep_keeps_state(t: Tableau, first: int, count: nat, i: int)
    requires
        t.wf(),
        t.n <= i <= 2 * t.n,
    ensures
        t.sweep(first, count, i).0.wf(),
        t.sweep(first, count, i).0.n == t.n,
        i <= t.sweep(first, count, i).1 <= 2 * t.n,
        t.sweep(first, count, i).1 <= i + count,
        t.is_stabilizer_state() ==> t.sweep(first, count, i).0.is_stabilizer_state(),
        t.is_complete_state() ==> t.sweep(first, count, i).0.is_complete_state(),
    decreases count,
{
    if count > 0 {
        lemma_sweep_keeps_state(t, first, (count - 1) as nat, i);
        let (u, j) = t.sweep(first, (count - 1) as nat, i);
        lemma_pivot_keeps_state(u, first + count - 1, j);
    }
}

/// The canonical form of a tableau is a tableau on the same qubits, the
/// rank lies between `0` and `n`, and the canonical form of a stabilizer
/// state is a stabilizer state.
pub proof fn lemma_canonical_keeps_state(t: Tableau)
    requires
        t.wf(),
    ensures
        t.canonical().wf(),
        t.canonical().n == t.n,
        0 <= t.rank() <= t.n,
        t.is_stabilizer_state() ==> t.canonical().is_stabilizer_state(),
        t.is_complete_state() ==> t.canonical().is_complete_state(),
{
    lemma_sweep_keeps_state(t, 0, t.n, t.n as int);
    let (u, i) = t.sweep(0, t.n, t.n as int);
    lemma_sweep_keeps_state(u, t.n as int, t.n, i);
}

/// What elimination does to each stabilizer: a row after row `i` and
/// before `hi` with the bit of column `col` set is multiplied by row `i`,
/// and every other stabilizer stays as it is.
pub proof fn lemma_eliminate_stabilizers(t: Tableau, col: int, i: int, hi: int)
    requires
        t.wf(),
        t.n <= i < 2 * t.n,
        hi <= 2 * t.n,
    ensures
        forall|r: int|
            t.n <= r < 2 * t.n ==> #[trigger] t.eliminate(col, i, hi).rows[r] == if i < r < hi
                && t.rows[r].bit(col) {
                product(t.rows[r], t.rows[i])
            } else {
                t.rows[r]
            },
    decreases hi - i,
{
    if hi > i + 1 {
        lemma_eliminate_stabilizers(t, col, i, hi - 1);
        lemma_eliminate_keeps_state(t, col, i, hi - 1);
        let u = t.eliminate(col, i, hi - 1);
        assert(u.rows[hi - 1] == t.rows[hi - 1]);
        assert(u.rows[i] == t.rows[i]);
    }
}

/// A pivot step of the sweep over the X columns extends the cleared
/// region: if the free rows have no X bit below `col`, the rows that are
/// free afterwards have none up to and including `col`.
pub proof fn lemma_pivot_clears_x(t: Tableau, col: int, i: int)
    requires
        t.wf(),
        t.n <= i <= 2 * t.n,
        0 <= col < t.n,
        t.x_clear(i, col),
    ensures
        t.pivot(col, i).0.x_clear(t.pivot(col, i).1, col + 1),
{
    let n = t.n;
    lemma_first_set(t.rows, col, i, 2 * n as int);
    let k = first_set(t.rows, col, i, 2 * n as int);
    if k < 2 * n {
        let s = t.swap_pair(i, k);
        lemma_pivot_keeps_state(t, col, i);
        lemma_swap_pair_rows(t, i, k);
        lemma_eliminate_stabilizers(s, col, i, 2 * n as int);
        let e = s.eliminate(col, i, 2 * n as int);
        assert(s.rows[i] == t.rows[k]);
        assert(s.rows[i].wf(n));
        assert(s.rows[i].x[col]);
        assert forall|r: int, c: int|
            i + 1 <= r < 2 * n && 0 <= c < col + 1 implies !e.rows[r].x[c] by {
            assert(s.rows[r].wf(n));
            assert(s.rows[r] == if r == k {
                t.rows[i]
            } else {
                t.rows[r]
            });
            assert(c < col ==> !t.rows[r].x[c] && !t.rows[i].x[c] && !t.rows[k].x[c]);
        }
    } else {
        assert forall|r: int, c: int|
            i <= r < 2 * n && 0 <= c < col + 1 implies !t.rows[r].x[c] by {
            assert(t.rows[r].wf(n));
            assert(!t.rows[r].bit(col));
        }
    }
}

/// A pivot step on rows without X bits leaves them without X bits.
pub proof fn lemma_pivot_keeps_x_clear(t: Tableau, col: int, i: int, lo: int)
    requires
        t.wf(),
        t.n <= lo <= i <= 2 * t.n,
        t.x_clear(lo, t.n as int),
    ensures
        t.pivot(col, i).0.x_clear(lo, t.n as int),
{
    let n = t.n;
    lemma_first_set(t.rows, col, i, 2 * n as int);
    let k = first_set(t.rows, col, i, 2 * n as int);
    if k < 2 * n {
        let s = t.swap_pair(i, k);
        lemma_swap_pair_rows(t, i, k);
        lemma_eliminate_stabilizers(s, col, i, 2 * n as int);
        lemma_eliminate_keeps_state(s, col, i, 2 * n as int);
        let e = s.eliminate(col, i, 2 * n as int);
        assert forall|r: int, c: int| lo <= r < 2 * n && 0 <= c < n implies !e.rows[r].x[c] by {
            assert(s.rows[r].wf(n) && s.rows[i].wf(n));
            assert(s.rows[r] == if r == k {
                t.rows[i]
            } else if r == i {
                t.rows[k]
            } else {
                t.rows[r]
            });
            assert(!t.rows[r].x[c] && !t.rows[i].x[c] && !t.rows[k].x[c]);
        }
    }
}

/// After the sweep over the first `count` X columns the free rows have no
/// X bit on the qubits below `count`.
pub proof fn lemma_sweep_clears_x(t: Tableau, count: nat)
    requires
        t.wf(),
        count <= t.n,
    ensures
        t.sweep(0, count, t.n as int).0.x_clear(t.sweep(0, count, t.n as int).1, count as int),
    decreases count,
{
    if count > 0 {
        lemma_sweep_clears_x(t, (count - 1) as nat);
        lemma_sweep_keeps_state(t, 0, (count - 1) as nat, t.n as int);
        let (u, j) = t.sweep(0, (count - 1) as nat, t.n as int);
        lemma_pivot_clears_x(u, count - 1, j);
    }
}

/// A sweep on rows without X bits leaves them without X bits.
pub proof fn lemma_sweep_keeps_x_clear(t: Tableau, first: int, count: nat, i: int, lo: int)
    requires
        t.wf(),
        t.n <= lo <= i <= 2 * t.n,
        t.x_clear(lo, t.n as int),
    ensures
        t.sweep(first, count, i).0.x_clear(lo, t.n as int),
    decreases count,
{
    if count > 0 {
        lemma_sweep_keeps_x_clear(t, first, (count - 1) as nat, i, lo);
        lemma_sweep_keeps_state(t, first, (count - 1) as nat, i);
        let (u, j) = t.sweep(first, (count - 1) as nat, i);
        lemma_pivot_keeps_x_clear(u, first + count - 1, j, lo);
    }
}

/// In the canonical form only the first `rank` stabilizers have X bits:
/// the others constrain signs, not which basis states occur.
pub proof fn lemma_canonical_x_clear(t: Tableau)
    requires
        t.wf(),
    ensures
        t.canonical().x_clear(t.n + t.rank(), t.n as int),
{
    let n = t.n;
    lemma_sweep_clears_x(t, n);
    lemma_sweep_keeps_state(t, 0, n, n as int);
    let (u, i) = t.sweep(0, n, n as int);
    lemma_sweep_keeps_x_clear(u, n as int, n, i, i);
}

impl CliffordSimulator {
    /// One pivot step on column `col`, with `i` the first stabilizer row
    /// not yet used as a pivot. Returns the next free row.
    fn pivot_on(&mut self, col: usize, i: usize) -> (next: usize)
        requires
            old(self).wf(),
            col < 2 * old(self).qubits(),
            old(self).qubits() <= i <= 2 * old(self).qubits(),
        ensures
            final(self).wf(),
            final(self).qubits() == old(self).qubits(),
            (final(self)@, next as int) == old(self)@.pivot(col as int, i as int),
            final(self).scratch() == old(self)@.pivot_scratch(
                col as int,
                i as int,
                old(self).scratch(),
            ),
            final(self).qubits() <= next <= 2 * final(self).qubits(),
    {
        let ghost n = self.qubits();
        let size = self.get_size();
        let total_size = self.total_size();
        proof {
            lemma_pivot_keeps_state(self@, col as int, i as int);
        }
        match self.find_row(col, i, total_size) {
            Some(k) => {
                self.swap_rows(i, k);
                self.swap_rows(i - size, k - size);
                let ghost swapped = self@;
                let ghost parked = self.scratch();
                assert(swapped =~~= old(self)@.swap_pair(i as int, k as int));

                for z in (i + 1)..total_size
                    invariant
                        size == n,
                        total_size == 2 * n,
                        n <= i < 2 * n,
                        col < 2 * n,
                        self.wf(),
                        self.qubits() == n,
                        swapped.wf(),
                        swapped.n == n,
                        self.scratch() == parked,
                        self@ == swapped.eliminate(col as int, i as int, z as int),
                {
                    proof {
                        lemma_eliminate_keeps_state(swapped, col as int, i as int, z as int);
                    }
                    let ghost t = self@;
                    if self.bit_at(z, col) {
                        self.mult_row(z, i);
                        self.mult_row(i - size, z - size);
                        assert(self@ =~~= t.reduce_pair(i as int, z as int));
                    }
                }
                i + 1
            },
            None => i,
        }
    }

    /// Brings the generators into canonical form and returns the rank of
    /// the X part of the stabilizers.
    pub(crate) fn gaussian(&mut self) -> (rank: usize)
        requires
            old(self).wf(),
        ensures
            final(self).wf(),
            final(self).qubits() == old(self).qubits(),
            final(self)@ == old(self)@.canonical(),
            final(self).scratch() == old(self)@.canonical_scratch(old(self).scratch()),
            rank == old(self)@.rank(),
            rank <= final(self).qubits(),
            old(self)@.is_stabilizer_state() ==> final(self)@.is_stabilizer_state(),
            old(self)@.is_complete_state() ==> final(self)@.is_complete_state(),
    {
        let ghost n = self.qubits();
        let ghost start = self@;
        let size = self.get_size();
        let mut i = size;
        proof {
            lemma_canonical_keeps_state(start);
        }

        for j in 0..size
            invariant
                size == n,
                self.wf(),
                self.qubits() == n,
                start.wf(),
                start.n == n,
                n <= i <= 2 * n,
                (self@, i as int) == start.sweep(0, j as nat, n as int),
                self.scratch() == start.sweep_scratch(0, j as nat, n as int, old(self).scratch()),
        {
            let col = self.x_index(j);
            i = self.pivot_on(col, i);
        }
        let result = i - size;
        let ghost middle = self@;
        let ghost free = i;
        let ghost parked = self.scratch();

        for j in 0..size
            invariant
                size == n,
                self.wf(),
                self.qubits() == n,
                middle.wf(),
                middle.n == n,
                n <= i <= 2 * n,
                (self@, i as int) == middle.sweep(n as int, j as nat, free as int),
                self.scratch() == middle.sweep_scratch(n as int, j as nat, free as int, parked),
        {
            let col = self.z_index(j);
            i = self.pivot_on(col, i);
        }

        result
    }
}

} // verus!
