//! The seed of the enumeration is a basis state that every stabilizer
//! without X bits fixes.

use crate::canonical::{
    lemma_canonical_keeps_state, lemma_canonical_x_clear, lemma_eliminate_keeps_state,
    lemma_eliminate_stabilizers, lemma_pivot_keeps_state, lemma_swap_pair_rows,
    lemma_sweep_keeps_state,
};
use crate::pauli::{anticommutes, first_set, lemma_first_set, lemma_scalar_commutes, PauliRow};
use crate::render::{lemma_lowest_set_from, lowest_set_from, overlap_from};
use crate::tableau::Tableau;
use vstd::prelude::*;

verus! {

/// The first qubit on which `row` has a Z bit, or the number of qubits
/// when it has none.
pub open spec fn z_lead(row: PauliRow) -> int {
    lowest_set_from(row.z, 0, row.z.len() as int)
}

/// The basis state with the bits `x` is an eigenstate with eigenvalue `+1`
/// of `row`, a row without X bits and with a real coefficient: the number
/// of ones on the qubits where the row has a Z bit is odd exactly when the
/// row has a minus sign.
pub open spec fn fixes(row: PauliRow, x: Seq<bool>) -> bool {
    (overlap_from(row.z, x, 0) % 2 == 1) == (row.phase == 2)
}

impl Tableau {
    /// The rows from `lo` on have no Z bit on the qubits below `cols`.
    pub open spec fn z_clear(self, lo: int, cols: int) -> bool {
        forall|r: int, c: int| lo <= r < 2 * self.n && 0 <= c < cols ==> !self.rows[r].z[c]
    }

    /// The stabilizer rows from `lo` up to `free` are in echelon form in
    /// their Z bits: each has a first Z bit, on a qubit below `cols`, and
    /// no later stabilizer has a Z bit on that qubit.
    pub open spec fn z_echelon(self, lo: int, free: int, cols: int) -> bool {
        forall|p: int|
            lo <= p < free ==> 0 <= z_lead(#[trigger] self.rows[p]) < cols
                && self.rows[p].z[z_lead(self.rows[p])] && forall|r: int|
                p < r < 2 * self.n ==> !self.rows[r].z[z_lead(self.rows[p])]
    }
}

/// A row with a Z bit on qubit `col` and none before it leads with `col`.
proof fn lemma_z_lead_is(row: PauliRow, col: int)
    requires
        0 <= col < row.z.len(),
        row.z[col],
        forall|c: int| 0 <= c < col ==> !row.z[c],
    ensures
        z_lead(row) == col,
{
    lemma_lowest_set_from(row.z, 0, row.z.len() as int);
}

/// A pivot step of the sweep over the Z columns, on rows without X bits,
/// extends the region cleared of Z bits, keeps the pivot rows in echelon
/// form and adds the new pivot row to them.
proof fn lemma_pivot_extends_z_echelon(t: Tableau, q: int, i: int, lo: int)
    requires
        t.wf(),
        t.n <= lo <= i <= 2 * t.n,
        0 <= q < t.n,
        t.z_clear(i, q),
        t.z_echelon(lo, i, q),
    ensures
        t.pivot(t.n + q, i).0.z_clear(t.pivot(t.n + q, i).1, q + 1),
        t.pivot(t.n + q, i).0.z_echelon(lo, t.pivot(t.n + q, i).1, q + 1),
{
    let n = t.n;
    let col = n + q;
    lemma_first_set(t.rows, col, i, 2 * n as int);
    lemma_pivot_keeps_state(t, col, i);
    let k = first_set(t.rows, col, i, 2 * n as int);
    assert forall|r: int|
        0 <= r < 2 * n implies (#[trigger] t.rows[r]).bit(col) == t.rows[r].z[q] by {
        assert(t.rows[r].wf(n));
    }
    if k < 2 * n {
        let s = t.swap_pair(i, k);
        lemma_swap_pair_rows(t, i, k);
        lemma_eliminate_stabilizers(s, col, i, 2 * n as int);
        lemma_eliminate_keeps_state(s, col, i, 2 * n as int);
        let e = s.eliminate(col, i, 2 * n as int);
        assert(t.rows[k].wf(n));
        assert(t.rows[k].bit(col));
        assert(t.rows[k].z[q]);
        assert forall|r: int, c: int|
            i + 1 <= r < 2 * n && 0 <= c < q + 1 implies !e.rows[r].z[c] by {
            assert(s.rows[r].wf(n) && s.rows[i].wf(n));
            assert(s.rows[r].bit(col) == s.rows[r].z[q]);
            assert(c < q ==> !t.rows[r].z[c] && !t.rows[i].z[c] && !t.rows[k].z[c]);
        }
        assert forall|p: int| lo <= p < i + 1 implies 0 <= z_lead(#[trigger] e.rows[p]) < q + 1
            && e.rows[p].z[z_lead(e.rows[p])] && forall|r: int|
            p < r < 2 * n ==> !e.rows[r].z[z_lead(e.rows[p])] by {
            if p < i {
                assert(e.rows[p] == t.rows[p]);
                let c = z_lead(t.rows[p]);
                assert forall|r: int| p < r < 2 * n implies !e.rows[r].z[c] by {
                    assert(s.rows[r].wf(n) && s.rows[i].wf(n));
                    assert(!t.rows[r].z[c] && !t.rows[i].z[c] && !t.rows[k].z[c]);
                }
            } else {
                assert(e.rows[i] == t.rows[k]);
                assert forall|c: int| 0 <= c < q implies !t.rows[k].z[c] by {}
                lemma_z_lead_is(t.rows[k], q);
                assert forall|r: int| i < r < 2 * n implies !e.rows[r].z[q] by {}
            }
        }
    } else {
        assert forall|r: int, c: int| i <= r < 2 * n && 0 <= c < q + 1 implies !t.rows[r].z[c] by {
            assert(!t.rows[r].bit(col));
        }
        assert forall|p: int| lo <= p < i implies 0 <= z_lead(#[trigger] t.rows[p]) < q + 1 by {}
    }
}

/// After the sweep over the first `count` Z columns the free rows have no
/// Z bit on the qubits below `count`, and the pivot rows of the sweep are
/// in echelon form.
proof fn lemma_sweep_builds_z_echelon(t: Tableau, count: nat, lo: int)
    requires
        t.wf(),
        t.n <= lo <= 2 * t.n,
        count <= t.n,
    ensures
        t.sweep(t.n as int, count, lo).0.z_clear(t.sweep(t.n as int, count, lo).1, count as int),
        t.sweep(t.n as int, count, lo).0.z_echelon(
            lo,
            t.sweep(t.n as int, count, lo).1,
            count as int,
        ),
    decreases count,
{
    if count > 0 {
        lemma_sweep_builds_z_echelon(t, (count - 1) as nat, lo);
        lemma_sweep_keeps_state(t, t.n as int, (count - 1) as nat, lo);
        let (u, j) = t.sweep(t.n as int, (count - 1) as nat, lo);
        lemma_pivot_extends_z_echelon(u, count - 1, j, lo);
    }
}

/// Setting a bit of `b` adds one to the overlap with `a` where `a` has
/// the bit and `b` had not, and nothing otherwise.
proof fn lemma_overlap_after_set(a: Seq<bool>, b: Seq<bool>, i: int, j: int)
    requires
        0 <= j,
        0 <= i < b.len(),
        a.len() == b.len(),
    ensures
        overlap_from(a, b.update(i, true), j) == overlap_from(a, b, j) + if j <= i && a[i]
            && !b[i] {
            1nat
        } else {
            0nat
        },
    decreases a.len() - j,
{
    if j < a.len() {
        lemma_overlap_after_set(a, b, i, j + 1);
    }
}

/// After the sweep for the seed over the rows from `row` on, the bits
/// chosen are fixed by each of these rows, and no bit is set on the
/// leading qubit of a row still to come.
proof fn lemma_seed_sweep_fixes(t: Tableau, lo: int, row: int)
    requires
        t.wf(),
        t.n <= lo <= row <= 2 * t.n,
        t.stabilizers_hermitian(),
        t.z_echelon(lo, 2 * t.n as int, t.n as int),
    ensures
        t.seed_sweep(row).0.len() == t.n,
        forall|r: int| row <= r < 2 * t.n ==> fixes(#[trigger] t.rows[r], t.seed_sweep(row).0),
        forall|p: int| lo <= p < row ==> !t.seed_sweep(row).0[z_lead(#[trigger] t.rows[p])],
    decreases 2 * t.n - row,
{
    let n = t.n;
    if row < 2 * n {
        lemma_seed_sweep_fixes(t, lo, row + 1);
        let (x, min) = t.seed_sweep(row + 1);
        let r = t.rows[row];
        assert(r.wf(n));
        assert(r.is_hermitian());
        let low = z_lead(r);
        assert(0 <= low < n && r.z[low]);
        lemma_lowest_set_from(r.z, 0, n as int);
        assert(lowest_set_from(r.z, 0, min) == low);
        let f = (r.phase + 2 * overlap_from(r.z, x, 0)) % 4;
        let y = t.seed_sweep(row).0;
        assert(!x[low]);
        if f == 2 {
            assert(y == x.update(low, true));
            lemma_overlap_after_set(r.z, x, low, 0);
            assert forall|r2: int| row < r2 < 2 * n implies fixes(#[trigger] t.rows[r2], y) by {
                assert(t.rows[r2].wf(n));
                assert(!t.rows[r2].z[low]);
                lemma_overlap_after_set(t.rows[r2].z, x, low, 0);
            }
            assert forall|p: int| lo <= p < row implies !y[z_lead(#[trigger] t.rows[p])] by {
                assert(!r.z[z_lead(t.rows[p])]);
            }
        } else {
            assert(y == x);
        }
    } else {
        assert forall|r: int|
            row <= r < 2 * n implies fixes(#[trigger] t.rows[r], t.seed_sweep(row).0) by {}
    }
}

/// In the canonical form of a stabilizer state, every stabilizer from
/// `rank` on has a Z bit, and these stabilizers are in echelon form in
/// their Z bits.
pub proof fn lemma_canonical_z_echelon(t: Tableau)
    requires
        t.is_stabilizer_state(),
    ensures
        t.canonical().z_echelon(t.n + t.rank(), 2 * t.n as int, t.n as int),
{
    let n = t.n;
    lemma_canonical_keeps_state(t);
    lemma_canonical_x_clear(t);
    lemma_sweep_keeps_state(t, 0, n, n as int);
    let (u, lo) = t.sweep(0, n, n as int);
    lemma_sweep_builds_z_echelon(u, n, lo);
    lemma_sweep_keeps_state(u, n as int, n, lo);
    let (c, end) = u.sweep(n as int, n, lo);
    assert(c == t.canonical());
    if end < 2 * n {
        // a stabilizer without any bit would commute with its destabilizer
        let row = c.rows[end];
        assert(row.wf(n));
        assert forall|q: int| 0 <= q < n implies !row.x[q] && !row.z[q] by {}
        assert(row.is_scalar());
        lemma_scalar_commutes(c.rows[end - n], row, n);
        assert(c.rows[end - n].wf(n));
        assert(anticommutes(c.rows[end - n], c.rows[end]));
    }
}

/// The seed of the enumeration is consistent with the stabilizers that
/// constrain signs only: in the canonical form of a stabilizer state, each
/// stabilizer from `rank` on fixes the basis state of the seed.
pub proof fn lemma_seed_is_fixed(t: Tableau, r: int)
    requires
        t.is_stabilizer_state(),
        t.n + t.rank() <= r < 2 * t.n,
    ensures
        fixes(t.canonical().rows[r], t.canonical().seed_row(t.rank()).x),
{
    lemma_canonical_keeps_state(t);
    lemma_canonical_z_echelon(t);
    let c = t.canonical();
    lemma_seed_sweep_fixes(c, t.n + t.rank(), t.n + t.rank());
}

} // verus!
