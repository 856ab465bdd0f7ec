//! The enumeration of basis states: each step multiplies by one
//! stabilizer, and each basis state is named once, since the rows of two
//! different indices differ in their X bits.

use crate::canonical::{
    lemma_eliminate_keeps_state, lemma_eliminate_stabilizers, lemma_pivot_clears_x,
    lemma_pivot_keeps_state, lemma_pivot_keeps_x_clear, lemma_swap_pair_rows, lemma_sweep_clears_x,
    lemma_sweep_keeps_state, lemma_sweep_keeps_x_clear,
};
use crate::pauli::{first_set, lemma_first_set, product, PauliRow};
use crate::render::{gray, gray_step, lemma_lowest_set_from, lowest_set_from};
use crate::tableau::Tableau;
use vstd::arithmetic::power2::pow2;
use vstd::prelude::*;

verus! {

/// The sum modulo 2 of two bit strings of the length of `a`.
pub open spec fn xor_bits(a: Seq<bool>, b: Seq<bool>) -> Seq<bool> {
    Seq::new(a.len(), |q: int| a[q] != b[q])
}

/// The first qubit on which `row` has an X bit, or the number of qubits
/// when it has none.
pub open spec fn lead(row: PauliRow) -> int {
    lowest_set_from(row.x, 0, row.x.len() as int)
}

impl Tableau {
    /// The sum modulo 2 of the X bits of the stabilizers `j < count` whose
    /// bit is set in `mask`.
    pub open spec fn span_x(self, mask: u64, count: nat) -> Seq<bool>
        decreases count,
    {
        if count == 0 {
            Seq::new(self.n, |q: int| false)
        } else {
            let rest = self.span_x(mask, (count - 1) as nat);
            if mask & (1u64 << ((count - 1) as u64)) != 0 {
                xor_bits(rest, self.stabilizer(count - 1).x)
            } else {
                rest
            }
        }
    }

    /// The stabilizer rows before `free` are in echelon form: each has a
    /// first X bit, on a qubit below `cols`, and no later stabilizer has an
    /// X bit on that qubit.
    pub open spec fn x_echelon(self, free: int, cols: int) -> bool {
        forall|p: int|
            self.n <= p < free ==> 0 <= lead(#[trigger] self.rows[p]) < cols
                && self.rows[p].x[lead(self.rows[p])] && forall|r: int|
                p < r < 2 * self.n ==> !self.rows[r].x[lead(self.rows[p])]
    }
}

/// The Gray codes of consecutive numbers below `2^k` differ, and only in
/// bits below `k`.
pub proof fn lemma_gray_step_in_range(i: u64, k: u64)
    by (bit_vector)
    requires
        k < 64,
        i + 1 < (1u64 << k),
    ensures
        gray_step(i) != 0,
        gray_step(i) < (1u64 << k),
{
}

/// The Gray codes of consecutive numbers differ in at most one bit.
pub proof fn lemma_gray_step_single(i: u64, a: u64, b: u64)
    by (bit_vector)
    requires
        i < 0xffff_ffff_ffff_ffff,
        a < 64,
        b < 64,
        gray_step(i) & (1u64 << a) != 0,
        gray_step(i) & (1u64 << b) != 0,
    ensures
        a == b,
{
}

/// A number below `2^k` that is not zero has a bit set below `k`.
pub proof fn lemma_some_bit_set(mask: u64, k: u64)
    requires
        k < 64,
        0 < mask < (1u64 << k),
    ensures
        exists|j: u64| j < k && mask & (1u64 << j) != 0,
    decreases k,
{
    if k == 0 {
        assert(1u64 << 0 == 1) by (bit_vector);
    } else {
        let top = (k - 1) as u64;
        if mask & (1u64 << top) != 0 {
        } else {
            assert(mask < (1u64 << top)) by (bit_vector)
                requires
                    0 < k < 64,
                    top == k - 1,
                    mask < (1u64 << k),
                    mask & (1u64 << top) == 0,
            ;
            lemma_some_bit_set(mask, top);
        }
    }
}

/// Multiplying by the stabilizers of a mask with the single bit `j` set
/// multiplies by stabilizer `j` alone.
pub proof fn lemma_flipped_single(t: Tableau, row: PauliRow, mask: u64, j: u64, count: nat)
    requires
        count <= 64,
        j < 64,
        mask & (1u64 << j) != 0,
        forall|a: u64| a < 64 && mask & (1u64 << a) != 0 ==> a == j,
    ensures
        t.flipped(row, mask, count) == if j < count {
            product(row, t.stabilizer(j as int))
        } else {
            row
        },
    decreases count,
{
    if count > 0 {
        lemma_flipped_single(t, row, mask, j, (count - 1) as nat);
        let top = (count - 1) as u64;
        assert(mask & (1u64 << top) != 0 ==> top == j);
    }
}

/// Each step of the enumeration multiplies the row of the basis state by
/// exactly one of the first `k` stabilizers.
pub proof fn lemma_ket_row_step(t: Tableau, k: nat, i: nat)
    requires
        k < 64,
        i + 1 < pow2(k),
    ensures
        exists|j: int|
            0 <= j < k && t.ket_row(k, i + 1) == product(t.ket_row(k, i), t.stabilizer(j)),
{
    vstd::bits::lemma_u64_pow2_no_overflow(k);
    vstd::bits::lemma_u64_shl_is_mul(1, k as u64);
    let step = gray_step(i as u64);
    lemma_gray_step_in_range(i as u64, k as u64);
    lemma_some_bit_set(step, k as u64);
    let j = choose|j: u64| j < k && step & (1u64 << j) != 0;
    assert forall|a: u64| a < 64 && step & (1u64 << a) != 0 implies a == j by {
        lemma_gray_step_single(i as u64, a, j);
    }
    lemma_flipped_single(t, t.ket_row(k, i), step, j, k);
    assert(t.ket_row(k, i + 1) == product(t.ket_row(k, i), t.stabilizer(j as int)));
}

/// A row with an X bit on qubit `col` and none before it leads with
/// `col`.
proof fn lemma_lead_is(row: PauliRow, col: int)
    requires
        0 <= col < row.x.len(),
        row.x[col],
        forall|c: int| 0 <= c < col ==> !row.x[c],
    ensures
        lead(row) == col,
{
    lemma_lowest_set_from(row.x, 0, row.x.len() as int);
}

/// A pivot step of the sweep over the X columns keeps the pivot rows in
/// echelon form and adds the new pivot row to them.
proof fn lemma_pivot_extends_echelon(t: Tableau, col: int, i: int)
    requires
        t.wf(),
        t.n <= i <= 2 * t.n,
        0 <= col < t.n,
        t.x_clear(i, col),
        t.x_echelon(i, col),
    ensures
        t.pivot(col, i).0.x_echelon(t.pivot(col, i).1, col + 1),
{
    let n = t.n;
    lemma_first_set(t.rows, col, i, 2 * n as int);
    lemma_pivot_keeps_state(t, col, i);
    lemma_pivot_clears_x(t, col, i);
    let k = first_set(t.rows, col, i, 2 * n as int);
    if k < 2 * n {
        let s = t.swap_pair(i, k);
        lemma_swap_pair_rows(t, i, k);
        lemma_eliminate_stabilizers(s, col, i, 2 * n as int);
        lemma_eliminate_keeps_state(s, col, i, 2 * n as int);
        let e = s.eliminate(col, i, 2 * n as int);
        assert forall|p: int| n <= p < i + 1 implies 0 <= lead(#[trigger] e.rows[p]) < col + 1
            && e.rows[p].x[lead(e.rows[p])] && forall|r: int|
            p < r < 2 * n ==> !e.rows[r].x[lead(e.rows[p])] by {
            if p < i {
                assert(e.rows[p] == t.rows[p]);
                let c = lead(t.rows[p]);
                assert forall|r: int| p < r < 2 * n implies !e.rows[r].x[c] by {
                    assert(s.rows[r].wf(n) && s.rows[i].wf(n));
                    assert(!t.rows[r].x[c] && !t.rows[i].x[c] && !t.rows[k].x[c]);
                }
            } else {
                assert(e.rows[i] == t.rows[k]);
                assert(t.rows[k].wf(n));
                assert(t.rows[k].x[col]);
                assert forall|c: int| 0 <= c < col implies !t.rows[k].x[c] by {}
                lemma_lead_is(t.rows[k], col);
                assert forall|r: int| i < r < 2 * n implies !e.rows[r].x[col] by {}
            }
        }
    } else {
        assert forall|p: int| n <= p < i implies 0 <= lead(#[trigger] t.rows[p]) < col + 1 by {}
    }
}

/// A pivot step on rows without X bits, after the pivot rows, keeps the
/// pivot rows in echelon form.
proof fn lemma_pivot_keeps_echelon(t: Tableau, col: int, i: int, lo: int)
    requires
        t.wf(),
        t.n <= lo <= i <= 2 * t.n,
        t.x_clear(lo, t.n as int),
        t.x_echelon(lo, t.n as int),
    ensures
        t.pivot(col, i).0.x_echelon(lo, t.n as int),
        forall|r: int| t.n <= r < lo ==> #[trigger] t.pivot(col, i).0.rows[r] == t.rows[r],
{
    let n = t.n;
    lemma_first_set(t.rows, col, i, 2 * n as int);
    lemma_pivot_keeps_state(t, col, i);
    lemma_pivot_keeps_x_clear(t, col, i, lo);
    let k = first_set(t.rows, col, i, 2 * n as int);
    let e = t.pivot(col, i).0;
    if k < 2 * n {
        let s = t.swap_pair(i, k);
        lemma_swap_pair_rows(t, i, k);
        lemma_eliminate_stabilizers(s, col, i, 2 * n as int);
        assert forall|r: int| n <= r < lo implies #[trigger] e.rows[r] == t.rows[r] by {
            assert(s.rows[r] == t.rows[r]);
        }
    }
    assert forall|p: int| n <= p < lo implies 0 <= lead(#[trigger] e.rows[p]) < n
        && e.rows[p].x[lead(e.rows[p])] && forall|r: int|
        p < r < 2 * n ==> !e.rows[r].x[lead(e.rows[p])] by {
        assert(e.rows[p] == t.rows[p]);
        let c = lead(t.rows[p]);
        assert forall|r: int| p < r < 2 * n implies !e.rows[r].x[c] by {
            if r < lo {
                assert(e.rows[r] == t.rows[r]);
            }
        }
    }
}

/// After the sweep over the first `count` X columns the pivot rows are in
/// echelon form.
proof fn lemma_sweep_builds_echelon(t: Tableau, count: nat)
    requires
        t.wf(),
        count <= t.n,
    ensures
        t.sweep(0, count, t.n as int).0.x_echelon(t.sweep(0, count, t.n as int).1, count as int),
    decreases count,
{
    if count > 0 {
        lemma_sweep_builds_echelon(t, (count - 1) as nat);
        lemma_sweep_clears_x(t, (count - 1) as nat);
        lemma_sweep_keeps_state(t, 0, (count - 1) as nat, t.n as int);
        let (u, j) = t.sweep(0, (count - 1) as nat, t.n as int);
        lemma_pivot_extends_echelon(u, count - 1, j);
    }
}

/// A sweep on rows without X bits, after the pivot rows, keeps the pivot
/// rows in echelon form.
proof fn lemma_sweep_keeps_echelon(t: Tableau, first: int, count: nat, i: int, lo: int)
    requires
        t.wf(),
        t.n <= lo <= i <= 2 * t.n,
        t.x_clear(lo, t.n as int),
        t.x_echelon(lo, t.n as int),
    ensures
        t.sweep(first, count, i).0.x_echelon(lo, t.n as int),
    decreases count,
{
    if count > 0 {
        lemma_sweep_keeps_echelon(t, first, (count - 1) as nat, i, lo);
        lemma_sweep_keeps_x_clear(t, first, (count - 1) as nat, i, lo);
        lemma_sweep_keeps_state(t, first, (count - 1) as nat, i);
        let (u, j) = t.sweep(first, (count - 1) as nat, i);
        lemma_pivot_keeps_echelon(u, first + count - 1, j, lo);
    }
}

/// In the canonical form the first `rank` stabilizers are in echelon
/// form: each has a first X bit on a qubit where no later stabilizer has
/// one.
pub proof fn lemma_canonical_echelon(t: Tableau)
    requires
        t.wf(),
    ensures
        t.canonical().x_echelon(t.n + t.rank(), t.n as int),
{
    let n = t.n;
    lemma_sweep_builds_echelon(t, n);
    lemma_sweep_clears_x(t, n);
    lemma_sweep_keeps_state(t, 0, n, n as int);
    let (u, i) = t.sweep(0, n, n as int);
    lemma_sweep_keeps_echelon(u, n as int, n, i, i);
}

/// The sweep for the seed yields one bit per qubit, and a pivot qubit of
/// the tableau.
proof fn lemma_seed_len(t: Tableau, row: int)
    requires
        t.wf(),
        t.n <= row <= 2 * t.n,
    ensures
        t.seed_sweep(row).0.len() == t.n,
        0 <= t.seed_sweep(row).1 < t.n,
    decreases 2 * t.n - row,
{
    if row < 2 * t.n {
        lemma_seed_len(t, row + 1);
        assert(t.rows[row].wf(t.n));
        lemma_lowest_set_from(t.rows[row].z, 0, t.seed_sweep(row + 1).1);
    }
}

/// No stabilizer is selected by the empty mask.
proof fn lemma_span_x_of_zero(t: Tableau, count: nat)
    requires
        count <= 64,
    ensures
        t.span_x(0, count) == Seq::new(t.n, |q: int| false),
    decreases count,
{
    if count > 0 {
        lemma_span_x_of_zero(t, (count - 1) as nat);
        let top = (count - 1) as u64;
        assert(0u64 & (1u64 << top) == 0) by (bit_vector);
    }
}

/// The span of a mask has one bit per qubit.
proof fn lemma_span_x_len(t: Tableau, mask: u64, count: nat)
    requires
        t.wf(),
        count <= t.n,
    ensures
        t.span_x(mask, count).len() == t.n,
    decreases count,
{
    if count > 0 {
        lemma_span_x_len(t, mask, (count - 1) as nat);
    }
}

/// The span of the sum of two masks is the sum of their spans.
proof fn lemma_span_x_of_xor(t: Tableau, a: u64, b: u64, count: nat)
    requires
        t.wf(),
        count <= t.n,
        count <= 64,
    ensures
        t.span_x(a ^ b, count) == xor_bits(t.span_x(a, count), t.span_x(b, count)),
    decreases count,
{
    lemma_span_x_len(t, a, count);
    lemma_span_x_len(t, b, count);
    lemma_span_x_len(t, a ^ b, count);
    if count > 0 {
        lemma_span_x_of_xor(t, a, b, (count - 1) as nat);
        lemma_span_x_len(t, a, (count - 1) as nat);
        lemma_span_x_len(t, b, (count - 1) as nat);
        let top = (count - 1) as u64;
        assert(((a ^ b) & (1u64 << top) != 0) == ((a & (1u64 << top) != 0) != (b & (1u64 << top)
            != 0))) by (bit_vector)
            requires
                top < 64,
        ;
        assert(t.rows[t.n + count - 1].wf(t.n));
        assert(t.span_x(a ^ b, count) =~= xor_bits(t.span_x(a, count), t.span_x(b, count)));
    } else {
        assert(t.span_x(a ^ b, count) =~= xor_bits(t.span_x(a, count), t.span_x(b, count)));
    }
}

/// The X bits of a row multiplied by the stabilizers of a mask are its own
/// X bits plus the span of the mask.
proof fn lemma_flipped_x(t: Tableau, row: PauliRow, mask: u64, count: nat)
    requires
        t.wf(),
        row.x.len() == t.n,
        count <= t.n,
    ensures
        t.flipped(row, mask, count).x == xor_bits(row.x, t.span_x(mask, count)),
    decreases count,
{
    lemma_span_x_len(t, mask, count);
    if count > 0 {
        lemma_flipped_x(t, row, mask, (count - 1) as nat);
        lemma_span_x_len(t, mask, (count - 1) as nat);
        assert(t.rows[t.n + count - 1].wf(t.n));
        assert(t.flipped(row, mask, count).x =~= xor_bits(row.x, t.span_x(mask, count)));
    } else {
        assert(t.flipped(row, mask, count).x =~= xor_bits(row.x, t.span_x(mask, count)));
    }
}

/// The X bits of the basis state with index `i` are those of the seed
/// plus the span of the Gray code of `i`.
proof fn lemma_ket_row_x(t: Tableau, k: nat, i: nat)
    requires
        t.wf(),
        k <= t.n,
        k < 64,
        i < pow2(k),
    ensures
        t.ket_row(k, i).x == xor_bits(t.seed_row(k as int).x, t.span_x(gray(i as u64), k)),
        t.ket_row(k, i).x.len() == t.n,
    decreases i,
{
    vstd::bits::lemma_u64_pow2_no_overflow(k);
    lemma_seed_len(t, (t.n + k) as int);
    let seed = t.seed_row(k as int).x;
    if i == 0 {
        assert(gray(0u64) == 0) by (bit_vector);
        lemma_span_x_of_zero(t, k);
        assert(seed =~= xor_bits(seed, t.span_x(0, k)));
    } else {
        lemma_ket_row_x(t, k, (i - 1) as nat);
        let prev = t.ket_row(k, (i - 1) as nat);
        let a = gray((i - 1) as u64);
        let b = gray(i as u64);
        assert(gray_step((i - 1) as u64) == a ^ b);
        lemma_flipped_x(t, prev, a ^ b, k);
        lemma_span_x_of_xor(t, a, b, k);
        lemma_span_x_len(t, a, k);
        lemma_span_x_len(t, b, k);
        assert(t.ket_row(k, i).x =~= xor_bits(seed, t.span_x(b, k)));
    }
}

/// The lowest bit of a mask that is set, given that one is set from
/// `start` on and none before.
proof fn lowest_bit(mask: u64, k: u64, start: u64) -> (p: u64)
    requires
        start <= k <= 64,
        exists|j: u64| start <= j < k && mask & (1u64 << j) != 0,
        forall|a: u64| a < start ==> mask & (1u64 << a) == 0,
    ensures
        p < k,
        mask & (1u64 << p) != 0,
        forall|a: u64| a < p ==> mask & (1u64 << a) == 0,
    decreases k - start,
{
    if mask & (1u64 << start) != 0 {
        start
    } else {
        let j = choose|j: u64| start <= j < k && mask & (1u64 << j) != 0;
        assert((start + 1) as u64 <= j);
        assert forall|a: u64| a < (start + 1) as u64 implies mask & (1u64 << a) == 0 by {
            if a == start {
            }
        }
        lowest_bit(mask, k, (start + 1) as u64)
    }
}

/// On the leading qubit of stabilizer `p`, the span of a mask whose
/// lowest set bit is `p` has a bit as soon as stabilizer `p` is counted.
proof fn lemma_span_x_at_lead(t: Tableau, mask: u64, p: u64, k: nat, count: nat)
    requires
        t.wf(),
        k <= t.n,
        k <= 64,
        count <= k,
        p < k,
        t.x_echelon((t.n + k) as int, t.n as int),
        mask & (1u64 << p) != 0,
        forall|a: u64| a < p ==> mask & (1u64 << a) == 0,
    ensures
        t.span_x(mask, count).len() == t.n,
        t.span_x(mask, count)[lead(t.rows[t.n + p])] == (p < count),
    decreases count,
{
    lemma_span_x_len(t, mask, count);
    let c = lead(t.rows[t.n + p]);
    assert(0 <= c < t.n);
    if count > 0 {
        lemma_span_x_at_lead(t, mask, p, k, (count - 1) as nat);
        lemma_span_x_len(t, mask, (count - 1) as nat);
        let j = (count - 1) as u64;
        assert(t.rows[t.n + j].wf(t.n));
        assert(t.stabilizer(count - 1) == t.rows[t.n + j]);
        if j < p {
            assert(mask & (1u64 << j) == 0);
        } else if j == p {
            assert(t.rows[t.n + p].x[c]);
        } else {
            assert(!t.rows[t.n + j].x[c]);
        }
    }
}

/// The Gray code is one-to-one.
proof fn lemma_gray_one_to_one(i: u64, j: u64)
    by (bit_vector)
    requires
        gray(i) == gray(j),
    ensures
        i == j,
{
}

/// The Gray codes of two different numbers below `2^k` differ in a bit
/// below `k`.
proof fn lemma_gray_codes_differ(i: u64, j: u64, k: u64)
    requires
        k < 64,
        i < (1u64 << k),
        j < (1u64 << k),
        i != j,
    ensures
        0 < gray(i) ^ gray(j) < (1u64 << k),
{
    let a = gray(i);
    let b = gray(j);
    if a == b {
        lemma_gray_one_to_one(i, j);
    }
    assert(a < (1u64 << k)) by (bit_vector)
        requires
            k < 64,
            i < (1u64 << k),
            a == i ^ (i >> 1),
    ;
    assert(b < (1u64 << k)) by (bit_vector)
        requires
            k < 64,
            j < (1u64 << k),
            b == j ^ (j >> 1),
    ;
    assert(0 < a ^ b < (1u64 << k)) by (bit_vector)
        requires
            k < 64,
            a < (1u64 << k),
            b < (1u64 << k),
            a != b,
    ;
}

/// The enumeration names every basis state once: the rows of two
/// different indices below `2^rank` differ in their X bits.
pub proof fn lemma_kets_are_distinct(t: Tableau, i: nat, j: nat)
    requires
        t.wf(),
        t.rank() < 64,
        i < pow2(t.rank() as nat),
        j < pow2(t.rank() as nat),
        i != j,
    ensures
        t.canonical().ket_row(t.rank() as nat, i).x != t.canonical().ket_row(t.rank() as nat, j).x,
{
    crate::canonical::lemma_canonical_keeps_state(t);
    lemma_canonical_echelon(t);
    let c = t.canonical();
    let k = t.rank() as nat;
    vstd::bits::lemma_u64_pow2_no_overflow(k);
    vstd::bits::lemma_u64_shl_is_mul(1, k as u64);
    lemma_ket_row_x(c, k, i);
    lemma_ket_row_x(c, k, j);
    let a = gray(i as u64);
    let b = gray(j as u64);
    let mask = a ^ b;
    lemma_gray_codes_differ(i as u64, j as u64, k as u64);
    lemma_some_bit_set(mask, k as u64);
    let p = lowest_bit(mask, k as u64, 0);
    lemma_span_x_at_lead(c, mask, p, k, k);
    lemma_span_x_of_xor(c, a, b, k);
    lemma_span_x_len(c, a, k);
    lemma_span_x_len(c, b, k);
    let q = lead(c.rows[c.n + p]);
    assert(c.span_x(mask, k)[q]);
    assert(c.span_x(a, k)[q] != c.span_x(b, k)[q]);
    assert(c.ket_row(k, i).x[q] != c.ket_row(k, j).x[q]);
}

} // verus!
