//! The GHZ circuit: a Hadamard gate on qubit 0 and a CNOT gate from qubit
//! 0 to every other qubit. Whatever the number of qubits, the state it
//! prepares is rendered as the two kets `|0...0>` and `|1...1>`, and the
//! measurements of its qubits all give the same bit. On one qubit it is
//! the Hadamard gate alone, on two qubits it prepares a Bell pair.

use crate::canonical::{
    lemma_eliminate_keeps_state, lemma_eliminate_stabilizers, lemma_swap_pair_rows,
};
use crate::measure::MeasureReturns;
use crate::pauli::{exponent_upto, first_set, product, PauliRow};
use crate::render::{caption, count_y, decimal, gray_step, ket, overlap_from};
use crate::tableau::Tableau;
use vstd::arithmetic::power2::pow2;
use vstd::prelude::*;

verus! {

impl Tableau {
    /// The tableau after CNOT gates from qubit 0 to each of the qubits
    /// `1 .. m`, in increasing order.
    pub open spec fn fan_out(self, m: nat) -> Tableau
        decreases m,
    {
        if m <= 1 {
            self
        } else {
            self.fan_out((m - 1) as nat).cnot(0, m - 1)
        }
    }

    /// The tableau that the GHZ circuit on `n` qubits prepares from
    /// `|0...0>`.
    pub open spec fn ghz(n: nat) -> Tableau {
        Tableau::ground(n).hadamard(0).fan_out(n)
    }

    /// The generators after the Hadamard gate and the first `m - 1` CNOT
    /// gates of the GHZ circuit: destabilizer 0 is `Z` on qubit 0, the
    /// other destabilizers are as in the ground tableau, stabilizer 0 is
    /// `X` on the qubits below `m`, and stabilizer `r` is `Z` on qubit `r`,
    /// times `Z` on qubit 0 where `r < m`.
    pub open spec fn ghz_prefix(n: nat, m: nat) -> Tableau {
        Tableau {
            n,
            rows: Seq::new(
                2 * n,
                |r: int|
                    if r == 0 {
                        PauliRow::single_z(n, 0, 0)
                    } else if r < n {
                        PauliRow::single_x(n, r)
                    } else if r == n {
                        PauliRow {
                            x: Seq::new(n, |j: int| j < m),
                            z: Seq::new(n, |j: int| false),
                            phase: 0,
                        }
                    } else {
                        PauliRow {
                            x: Seq::new(n, |j: int| false),
                            z: Seq::new(n, |j: int| j == r - n || (j == 0 && r - n < m)),
                            phase: 0,
                        }
                    },
            ),
        }
    }

    /// The stabilizers from row `lo` on have no X bits and phase zero.
    pub open spec fn plain_z(self, lo: int) -> bool {
        forall|r: int|
            lo <= r < 2 * self.n ==> (#[trigger] self.rows[r]).phase == 0 && forall|c: int|
                0 <= c < self.n ==> !self.rows[r].x[c]
    }
}

/// The first gates of the GHZ circuit give the generators of `ghz_prefix`.
pub proof fn lemma_ghz_prefix(n: nat, m: nat)
    requires
        1 <= m <= n,
    ensures
        Tableau::ground(n).hadamard(0).fan_out(m) == Tableau::ghz_prefix(n, m),
    decreases m,
{
    if m <= 1 {
        assert(Tableau::ground(n).hadamard(0) =~~= Tableau::ghz_prefix(n, m));
    } else {
        lemma_ghz_prefix(n, (m - 1) as nat);
        assert(Tableau::ghz_prefix(n, (m - 1) as nat).cnot(0, m - 1) =~~= Tableau::ghz_prefix(
            n,
            m,
        ));
    }
}

/// Without a set bit in range, `first_set` returns the end of the range.
proof fn lemma_first_set_none(rows: Seq<PauliRow>, col: int, lo: int, hi: int)
    requires
        lo <= hi,
        forall|r: int| lo <= r < hi ==> !(#[trigger] rows[r]).bit(col),
    ensures
        first_set(rows, col, lo, hi) == hi,
    decreases hi - lo,
{
    if lo < hi {
        lemma_first_set_none(rows, col, lo + 1, hi);
    }
}

/// Elimination changes nothing where no later row has the bit set.
proof fn lemma_eliminate_nothing(t: Tableau, col: int, i: int, hi: int)
    requires
        t.wf(),
        t.n <= i < 2 * t.n,
        hi <= 2 * t.n,
        forall|r: int| i < r < hi ==> !(#[trigger] t.rows[r]).bit(col),
    ensures
        t.eliminate(col, i, hi) == t,
    decreases hi - i,
{
    if hi > i + 1 {
        lemma_eliminate_nothing(t, col, i, hi - 1);
    }
}

/// Where stabilizer 0 has an X bit on qubit 0 and no other stabilizer has
/// an X bit at all, the sweep over the X columns pivots once, on row `n`,
/// and changes nothing.
proof fn lemma_x_sweep_pivots_once(t: Tableau, count: nat)
    requires
        t.wf(),
        t.rows[t.n as int].x[0],
        t.x_clear(t.n as int + 1, t.n as int),
        1 <= count <= t.n,
    ensures
        t.sweep(0, count, t.n as int) == (t, t.n as int + 1),
    decreases count,
{
    let n = t.n;
    assert forall|r: int, col: int| n + 1 <= r < 2 * n && 0 <= col < n
        implies !#[trigger] t.rows[r].bit(col) by {
        assert(t.rows[r].wf(n));
        assert(!t.rows[r].x[col]);
    }
    if count == 1 {
        assert(t.sweep(0, 0, n as int) == (t, n as int));
        assert(t.rows[n as int].wf(n));
        assert(t.rows[n as int].bit(0));
        assert(first_set(t.rows, 0, n as int, 2 * n as int) == n);
        assert(t.swap_pair(n as int, n as int) =~~= t);
        lemma_eliminate_nothing(t, 0, n as int, 2 * n as int);
    } else {
        lemma_x_sweep_pivots_once(t, (count - 1) as nat);
        lemma_first_set_none(t.rows, count - 1, n as int + 1, 2 * n as int);
    }
}

/// Rows without X bits multiply without carries.
proof fn lemma_exponent_without_x(a: PauliRow, b: PauliRow, k: nat)
    requires
        forall|c: int| 0 <= c < k ==> !a.x[c] && !b.x[c],
    ensures
        exponent_upto(a, b, k) == 0,
    decreases k,
{
    if k > 0 {
        lemma_exponent_without_x(a, b, (k - 1) as nat);
    }
}

/// The identity multiplies without carries.
proof fn lemma_exponent_of_identity(a: PauliRow, b: PauliRow, k: nat)
    requires
        forall|c: int| 0 <= c < k ==> !a.x[c] && !a.z[c],
    ensures
        exponent_upto(a, b, k) == 0,
    decreases k,
{
    if k > 0 {
        lemma_exponent_of_identity(a, b, (k - 1) as nat);
    }
}

/// A pivot step on stabilizers without X bits and with phase zero leaves
/// them so, and does not touch the stabilizers before them.
proof fn lemma_pivot_keeps_plain_z(t: Tableau, col: int, i: int, lo: int)
    requires
        t.wf(),
        t.n <= lo <= i <= 2 * t.n,
        t.plain_z(lo),
    ensures
        t.pivot(col, i).0.plain_z(lo),
        forall|r: int| t.n <= r < lo ==> #[trigger] t.pivot(col, i).0.rows[r] == t.rows[r],
{
    let n = t.n;
    crate::pauli::lemma_first_set(t.rows, col, i, 2 * n as int);
    let k = first_set(t.rows, col, i, 2 * n as int);
    if k < 2 * n {
        let s = t.swap_pair(i, k);
        lemma_swap_pair_rows(t, i, k);
        lemma_eliminate_stabilizers(s, col, i, 2 * n as int);
        lemma_eliminate_keeps_state(s, col, i, 2 * n as int);
        let e = s.eliminate(col, i, 2 * n as int);
        assert forall|r: int| lo <= r < 2 * n implies (#[trigger] e.rows[r]).phase == 0 && forall|
            c: int,
        |
            0 <= c < n ==> !e.rows[r].x[c] by {
            assert(s.rows[r].wf(n) && s.rows[i].wf(n));
            assert(t.rows[r].phase == 0 && t.rows[i].phase == 0 && t.rows[k].phase == 0);
            assert(forall|c: int| 0 <= c < n ==> !t.rows[r].x[c]);
            assert(forall|c: int| 0 <= c < n ==> !t.rows[i].x[c]);
            assert(forall|c: int| 0 <= c < n ==> !t.rows[k].x[c]);
            lemma_exponent_without_x(s.rows[r], s.rows[i], n);
        }
        assert forall|r: int| n <= r < lo implies #[trigger] e.rows[r] == t.rows[r] by {
            assert(s.rows[r] == t.rows[r]);
        }
    }
}

/// A sweep on stabilizers without X bits and with phase zero leaves them
/// so, and does not touch the stabilizers before them.
proof fn lemma_sweep_keeps_plain_z(t: Tableau, first: int, count: nat, i: int, lo: int)
    requires
        t.wf(),
        t.n <= lo <= i <= 2 * t.n,
        t.plain_z(lo),
    ensures
        t.sweep(first, count, i).0.plain_z(lo),
        forall|r: int| t.n <= r < lo ==> #[trigger] t.sweep(first, count, i).0.rows[r] == t.rows[r],
    decreases count,
{
    if count > 0 {
        lemma_sweep_keeps_plain_z(t, first, (count - 1) as nat, i, lo);
        crate::canonical::lemma_sweep_keeps_state(t, first, (count - 1) as nat, i);
        let (u, j) = t.sweep(first, (count - 1) as nat, i);
        lemma_pivot_keeps_plain_z(u, first + count - 1, j, lo);
        let v = u.pivot(first + count - 1, j).0;
        assert forall|r: int| t.n <= r < lo implies #[trigger] v.rows[r] == t.rows[r] by {
            assert(u.rows[r] == t.rows[r]);
        }
    }
}

/// No bit of a string overlaps with a string of zeros.
proof fn lemma_overlap_with_zeros(a: Seq<bool>, b: Seq<bool>, j: int)
    requires
        0 <= j,
        forall|c: int| j <= c < a.len() ==> !b[c],
    ensures
        overlap_from(a, b, j) == 0,
    decreases a.len() - j,
{
    if j < a.len() {
        lemma_overlap_with_zeros(a, b, j + 1);
    }
}

/// Stabilizers without X bits and with phase zero are satisfied by
/// `|0...0>`: the sweep for the seed sets no bit.
proof fn lemma_seed_of_plain_z(t: Tableau, lo: int, row: int)
    requires
        t.wf(),
        t.n <= lo <= row <= 2 * t.n,
        t.plain_z(lo),
    ensures
        t.seed_sweep(row).0 == Seq::new(t.n, |j: int| false),
    decreases 2 * t.n - row,
{
    if row < 2 * t.n {
        lemma_seed_of_plain_z(t, lo, row + 1);
        let (x, min) = t.seed_sweep(row + 1);
        assert(t.rows[row].wf(t.n));
        assert(t.rows[row].phase == 0);
        lemma_overlap_with_zeros(t.rows[row].z, x, 0);
    }
}

/// A row without Z bits labels no qubit `Y`.
proof fn lemma_count_y_without_z(row: PauliRow, k: nat)
    requires
        forall|c: int| 0 <= c < k ==> !row.z[c],
    ensures
        count_y(row, k) == 0,
    decreases k,
{
    if k > 0 {
        lemma_count_y_without_z(row, (k - 1) as nat);
    }
}

/// The ket of the basis state with every bit equal to `bit`, with
/// coefficient `+1`.
pub open spec fn uniform_ket(n: nat, bit: bool) -> Seq<char> {
    seq![' ', '+', '|'] + Seq::new(
        n,
        |j: int|
            if bit {
                '1'
            } else {
                '0'
            },
    ) + seq!['>']
}

/// The state that the GHZ circuit prepares is rendered as two basis
/// states, `|0...0>` and `|1...1>`, both with coefficient `+1`, whatever
/// the number of qubits.
pub proof fn lemma_ghz_renders_two_kets(n: nat)
    requires
        n >= 1,
    ensures
        Tableau::ghz(n).rank() == 1,
        Tableau::ghz(n).render() == seq!['2'] + caption() + uniform_ket(n, false) + uniform_ket(
            n,
            true,
        ),
{
    let t = Tableau::ghz(n);
    lemma_ghz_prefix(n, n);
    assert(t == Tableau::ghz_prefix(n, n));
    assert(t.wf());
    // the sweep over the X columns
    lemma_x_sweep_pivots_once(t, n);
    assert(t.sweep(0, n, n as int) == (t, n as int + 1));
    assert(t.rank() == 1);
    // the sweep over the Z columns
    assert(t.plain_z(n as int + 1));
    lemma_sweep_keeps_plain_z(t, n as int, n, n as int + 1, n as int + 1);
    crate::canonical::lemma_sweep_keeps_state(t, n as int, n, n as int + 1);
    let c = t.canonical();
    assert(c == t.sweep(n as int, n, n as int + 1).0);
    assert(c.rows[n as int] == t.rows[n as int]);
    // the seed
    lemma_seed_of_plain_z(c, n as int + 1, n as int + 1);
    let zero = PauliRow::identity(n);
    assert(c.seed_row(1) == zero);
    assert(c.ket_row(1, 0) == zero);
    // the one step of the enumeration
    let all_x = c.stabilizer(0);
    assert(gray_step(0u64) & (1u64 << 0u64) != 0) by (bit_vector);
    assert(c.flipped(zero, gray_step(0u64), 0) == zero);
    assert(c.flipped(zero, gray_step(0u64), 1) == product(zero, all_x));
    assert(c.ket_row(1, 1) == product(zero, all_x));
    lemma_exponent_of_identity(zero, all_x, n);
    let ones = PauliRow { x: Seq::new(n, |j: int| true), z: Seq::new(n, |j: int| false), phase: 0 };
    assert(product(zero, all_x) =~~= ones);
    // the text
    lemma_count_y_without_z(zero, n);
    lemma_count_y_without_z(ones, n);
    assert(ket(zero) =~= uniform_ket(n, false));
    assert(ket(ones) =~= uniform_ket(n, true));
    vstd::arithmetic::power2::lemma2_to64();
    assert(pow2(1) == 2);
    assert(decimal(2) =~= seq!['2']);
    assert(c.kets(1, 0) =~= Seq::<char>::empty());
    assert(c.kets(1, 1) =~= uniform_ket(n, false));
    assert(c.kets(1, 2) =~= uniform_ket(n, false) + uniform_ket(n, true));
    assert(t.render() =~= seq!['2'] + caption() + uniform_ket(n, false) + uniform_ket(n, true));
}

/// Where no stabilizer has an X bit and every stabilizer after the first
/// has phase zero, the forced product that starts at stabilizer 0 has the
/// phase of stabilizer 0.
proof fn lemma_forced_product_of_z_rows(t: Tableau, q: int, hi: int)
    requires
        t.wf(),
        hi <= t.n,
        t.x_clear(t.n as int, t.n as int),
        t.plain_z(t.n as int + 1),
    ensures
        t.forced_product(q, 0, hi).phase == t.stabilizer(0).phase,
        t.forced_product(q, 0, hi).x.len() == t.n,
        forall|c: int| 0 <= c < t.n ==> !t.forced_product(q, 0, hi).x[c],
    decreases hi,
{
    let n = t.n;
    assert(t.rows[n as int].wf(n));
    if hi > 1 {
        lemma_forced_product_of_z_rows(t, q, hi - 1);
        let rest = t.forced_product(q, 0, hi - 1);
        let next = t.stabilizer(hi - 1);
        assert(next == t.rows[n + hi - 1]);
        assert(next.wf(n));
        assert(next.phase == 0);
        lemma_exponent_without_x(rest, next, n);
    }
}

/// Measuring any qubit of the state that the GHZ circuit prepares gives a
/// random bit, and every measurement after it, of any qubit, is forced to
/// the same bit.
pub proof fn lemma_ghz_measurements_agree(
    n: nat,
    q: int,
    other: int,
    suppress: bool,
    coin: bool,
    again: bool,
)
    requires
        n >= 1,
        0 <= q < n,
        0 <= other < n,
    ensures
        Tableau::ghz(n).outcome(q, suppress, coin) == if coin {
            MeasureReturns::RandomOne
        } else {
            MeasureReturns::RandomZero
        },
        Tableau::ghz(n).measured(q, coin).outcome(other, false, again) == if coin {
            MeasureReturns::AlwaysOne
        } else {
            MeasureReturns::AlwaysZero
        },
{
    let t = Tableau::ghz(n);
    lemma_ghz_prefix(n, n);
    assert(t.wf());
    // the first stabilizer has an X bit on every qubit
    assert(t.rows[n as int].x[q]);
    assert(t.is_random(q));
    assert(t.rows[n as int].bit(q));
    assert(t.stabilizer_pivot(q) == 0);
    let u = t.collapse(q, 0, coin);
    assert(u == t.measured(q, coin));
    assert forall|r: int| 0 <= r < 2 * n implies (#[trigger] u.rows[r]).wf(n) by {
        assert(t.rows[r].wf(n));
    }
    // afterwards no stabilizer has an X bit
    assert forall|r: int, c: int| n <= r < 2 * n && 0 <= c < n implies !u.rows[r].x[c] by {
        assert(t.rows[r].wf(n));
    }
    assert(!u.is_random(other));
    assert(u.plain_z(n as int + 1));
    // and destabilizer 0 has one on every qubit
    assert(u.rows[0] == t.rows[n as int]);
    assert(u.rows[0].bit(other));
    assert(u.destabilizer_pivot(other) == 0);
    lemma_forced_product_of_z_rows(u, other, n as int);
    assert(u.stabilizer(0).phase == if coin {
        2int
    } else {
        0int
    });
}

} // verus!
