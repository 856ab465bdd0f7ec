//! Measurement of one qubit in the computational basis.

use crate::coin::random_u64;
use crate::pauli::{
    anticommutes, first_set, lemma_anticommutes_mixed, lemma_anticommutes_single_z,
    lemma_anticommutes_symmetric, lemma_commutes_with_self, lemma_first_set,
    lemma_product_hermitian, product, PauliRow,
};
use crate::simulator::CliffordSimulator;
use crate::tableau::Tableau;
use vstd::prelude::*;

verus! {

/// The result of measuring one qubit: the bit read, and whether it was
/// drawn at random or forced by the state.
#[derive(Clone, Copy, Debug, PartialEq, Eq, Structural)]
pub enum MeasureReturns {
    RandomOne,
    RandomZero,
    AlwaysOne,
    AlwaysZero,
}

impl Tableau {
    /// The outcome of measuring qubit `q` is random: some stabilizer
    /// generator has an X bit on `q`.
    pub open spec fn is_random(self, q: int) -> bool {
        exists|s: int| self.n <= s < 2 * self.n && (#[trigger] self.rows[s]).x[q]
    }

    /// The index of the first stabilizer generator with an X bit on `q`, or
    /// `n` when there is none.
    pub open spec fn stabilizer_pivot(self, q: int) -> int {
        first_set(self.rows, q, self.n as int, 2 * self.n as int) - self.n
    }

    /// The index of the first destabilizer generator with an X bit on `q`,
    /// or `n` when there is none.
    pub open spec fn destabilizer_pivot(self, q: int) -> int {
        first_set(self.rows, q, 0, self.n as int)
    }

    /// The tableau after a random measurement of qubit `q` that pivots on
    /// stabilizer `p`.
    ///
    /// Destabilizer `p` becomes the old stabilizer `p`; stabilizer `p`
    /// becomes `Z` on `q`, with a minus sign when the coin shows one; every
    /// other generator with an X bit on `q` is multiplied by the old
    /// stabilizer `p`.
    pub open spec fn collapse(self, q: int, p: int, coin: bool) -> Tableau {
        let pivot = self.rows[self.n + p];
        Tableau {
            n: self.n,
            rows: Seq::new(
                self.rows.len(),
                |r: int|
                    if r == p {
                        pivot
                    } else if r == self.n + p {
                        PauliRow::single_z(
                            self.n,
                            q,
                            if coin {
                                2
                            } else {
                                0
                            },
                        )
                    } else if self.rows[r].x[q] {
                        product(self.rows[r], pivot)
                    } else {
                        self.rows[r]
                    },
            ),
        }
    }

    /// The product of stabilizer `d` and of every stabilizer `i` with
    /// `d < i < hi` whose destabilizer has an X bit on `q`, multiplied in
    /// increasing order of `i`.
    pub open spec fn forced_product(self, q: int, d: int, hi: int) -> PauliRow
        decreases hi - d,
    {
        if hi <= d + 1 {
            self.stabilizer(d)
        } else {
            let rest = self.forced_product(q, d, hi - 1);
            if self.destabilizer(hi - 1).x[q] {
                product(rest, self.stabilizer(hi - 1))
            } else {
                rest
            }
        }
    }

    /// The bit that a measurement of qubit `q` is forced to give when no
    /// stabilizer generator has an X bit on `q`.
    ///
    /// It is read off the sign of the product of the stabilizers whose
    /// destabilizers have an X bit on `q`; without such a destabilizer it
    /// is zero.
    pub open spec fn forced_bit(self, q: int) -> bool {
        let d = self.destabilizer_pivot(q);
        d < self.n && self.forced_product(q, d, self.n as int).phase != 0
    }

    /// The logical state after measuring qubit `q`, where `coin` is the bit
    /// drawn if the outcome is random.
    pub open spec fn measured(self, q: int, coin: bool) -> Tableau {
        if self.is_random(q) {
            self.collapse(q, self.stabilizer_pivot(q), coin)
        } else {
            self
        }
    }

    /// The value that measuring qubit `q` returns, where `coin` is the bit
    /// drawn if the outcome is random. With `suppress` set, a forced
    /// outcome is not worked out and reported as zero.
    pub open spec fn outcome(self, q: int, suppress: bool, coin: bool) -> MeasureReturns {
        if self.is_random(q) {
            if coin {
                MeasureReturns::RandomOne
            } else {
                MeasureReturns::RandomZero
            }
        } else if !suppress && self.forced_bit(q) {
            MeasureReturns::AlwaysOne
        } else {
            MeasureReturns::AlwaysZero
        }
    }

    /// The scratch row after measuring qubit `q`, given the scratch row
    /// before: it changes only when a forced outcome is worked out.
    pub open spec fn measured_scratch(self, q: int, suppress: bool, scratch: PauliRow) -> PauliRow {
        if !self.is_random(q) && !suppress && self.destabilizer_pivot(q) < self.n {
            self.forced_product(q, self.destabilizer_pivot(q), self.n as int)
        } else {
            scratch
        }
    }
}

/// The outcome is random exactly when a first stabilizer with an X bit on
/// the measured qubit exists.
pub proof fn lemma_is_random_pivot(t: Tableau, q: int)
    requires
        t.wf(),
        0 <= q < t.n,
    ensures
        t.is_random(q) == (t.stabilizer_pivot(q) < t.n),
        0 <= t.stabilizer_pivot(q) <= t.n,
        t.stabilizer_pivot(q) < t.n ==> t.stabilizer(t.stabilizer_pivot(q)).x[q],
{
    lemma_first_set(t.rows, q, t.n as int, 2 * t.n as int);
    let k = first_set(t.rows, q, t.n as int, 2 * t.n as int);
    if k < 2 * t.n {
        assert(t.rows[k].x[q]);
    } else {
        assert forall|s: int| t.n <= s < 2 * t.n implies !(#[trigger] t.rows[s]).x[q] by {
            assert(!t.rows[s].bit(q));
        }
    }
}

/// A random measurement that pivots on a stabilizer with an X bit on the
/// measured qubit maps stabilizer states to stabilizer states, whichever
/// way the coin falls.
pub proof fn lemma_collapse_keeps_state(t: Tableau, q: int, p: int, coin: bool)
    requires
        t.is_stabilizer_state(),
        0 <= q < t.n,
        0 <= p < t.n,
        t.stabilizer(p).x[q],
    ensures
        t.collapse(q, p, coin).is_stabilizer_state(),
        t.complete() ==> t.collapse(q, p, coin).complete(),
{
    let n = t.n;
    let u = t.collapse(q, p, coin);
    let pivot = t.rows[n + p];
    let zq = u.rows[n + p];
    assert(pivot.wf(n));
    lemma_commutes_with_self(pivot, n);
    lemma_commutes_with_self(zq, n);
    lemma_anticommutes_single_z(pivot, n, q, zq.phase);
    assert forall|r: int| 0 <= r < u.rows.len() implies (#[trigger] u.rows[r]).wf(n) by {
        assert(t.rows[r].wf(n));
    }
    // every row but the two at the pivot commutes with the new stabilizer
    assert forall|r: int| 0 <= r < 2 * n && r != p && r != n + p implies !anticommutes(
        #[trigger] u.rows[r],
        zq,
    ) && !anticommutes(zq, u.rows[r]) by {
        assert(t.rows[r].wf(n));
        lemma_anticommutes_single_z(u.rows[r], n, q, zq.phase);
        lemma_anticommutes_symmetric(u.rows[r], zq, n);
    }
    assert forall|s: int| n <= s < 2 * n implies (#[trigger] u.rows[s]).is_hermitian() by {
        assert(t.rows[s].wf(n));
        assert(t.rows[s].is_hermitian());
        assert(t.rows[n + p].is_hermitian());
        if s != n + p && t.rows[s].x[q] {
            assert(!anticommutes(t.rows[s], t.rows[n + p]));
            lemma_product_hermitian(t.rows[s], pivot);
        }
    }
    assert forall|s: int, v: int| n <= s < 2 * n && n <= v < 2 * n implies !anticommutes(
        u.rows[s],
        u.rows[v],
    ) by {
        assert(t.rows[s].wf(n) && t.rows[v].wf(n));
        assert(!anticommutes(t.rows[s], t.rows[v]));
        assert(!anticommutes(t.rows[s], t.rows[n + p]));
        assert(!anticommutes(t.rows[n + p], t.rows[v]));
        if s != n + p && v != n + p {
            lemma_anticommutes_mixed(
                t.rows[s],
                t.rows[s].x[q],
                t.rows[v],
                t.rows[v].x[q],
                pivot,
                n,
            );
        }
    }
    assert forall|d: int, s: int| 0 <= d < n && n <= s < 2 * n implies anticommutes(
        u.rows[d],
        u.rows[s],
    ) == (s == d + n) by {
        assert(t.rows[s].wf(n) && t.rows[d].wf(n));
        assert(anticommutes(t.rows[d], t.rows[s]) == (s == d + n));
        assert(anticommutes(t.rows[d], t.rows[n + p]) == (n + p == d + n));
        assert(!anticommutes(t.rows[n + p], t.rows[s]));
        if d == p {
            if s != n + p {
                lemma_anticommutes_mixed(pivot, false, t.rows[s], t.rows[s].x[q], pivot, n);
            }
        } else if s != n + p {
            lemma_anticommutes_mixed(
                t.rows[d],
                t.rows[d].x[q],
                t.rows[s],
                t.rows[s].x[q],
                pivot,
                n,
            );
        }
    }
    if t.complete() {
        assert(u.complete()) by {
            reveal(Tableau::complete);
            assert forall|v: PauliRow| #[trigger]
                v.wf(n) && u.commutes_with_all(v) implies v.is_scalar() by {
                lemma_collapse_completes(t, q, p, coin, v);
            }
        }
    }
}

/// A row that commutes with every generator after a collapse commuted
/// with every generator before it, and so has no bits.
proof fn lemma_collapse_completes(t: Tableau, q: int, p: int, coin: bool, v: PauliRow)
    requires
        t.is_complete_state(),
        0 <= q < t.n,
        0 <= p < t.n,
        t.stabilizer(p).x[q],
        v.wf(t.n),
        t.collapse(q, p, coin).commutes_with_all(v),
    ensures
        v.is_scalar(),
{
    reveal(Tableau::complete);
    let n = t.n;
    let u = t.collapse(q, p, coin);
    let pivot = t.rows[n + p];
    let zq = u.rows[n + p];
    assert(pivot.wf(n));
    assert(!anticommutes(v, u.rows[p]));
    assert(!anticommutes(v, zq));
    lemma_commutes_with_self(pivot, n);
    // v commutes with every old row but, perhaps, the old destabilizer of the pivot
    assert forall|r: int|
        0 <= r < 2 * n && r != p implies !anticommutes(v, #[trigger] t.rows[r]) by {
        assert(t.rows[r].wf(n));
        assert(!anticommutes(v, u.rows[r]));
        if r != n + p {
            lemma_anticommutes_mixed(v, false, t.rows[r], t.rows[r].x[q], pivot, n);
        }
    }
    if anticommutes(v, t.rows[p]) {
        // then v times the old stabilizer of the pivot commutes with every old row
        let w = product(v, pivot);
        assert(w.wf(n));
        assert forall|r: int| 0 <= r < 2 * n implies !anticommutes(w, #[trigger] t.rows[r]) by {
            assert(t.rows[r].wf(n));
            crate::pauli::lemma_anticommutes_product(v, pivot, t.rows[r], n);
            if r < n {
                lemma_anticommutes_symmetric(pivot, t.rows[r], n);
                assert(anticommutes(t.rows[r], t.rows[n + p]) == (n + p == r + n));
            } else {
                assert(!anticommutes(t.rows[n + p], t.rows[r]));
            }
        }
        assert(t.commutes_with_all(w));
        assert(w.is_scalar());
        // so v has the bits of that stabilizer, and anticommutes with Z on q
        assert(v.x[q] == pivot.x[q]) by {
            assert(!w.x[q]);
        }
        lemma_anticommutes_single_z(v, n, q, zq.phase);
        assert(false);
    } else {
        assert(t.commutes_with_all(v));
    }
}

/// Measuring a qubit maps stabilizer states to stabilizer states,
/// whichever way the coin falls.
pub proof fn lemma_measured_keeps_state(t: Tableau, q: int, coin: bool)
    requires
        t.is_stabilizer_state(),
        0 <= q < t.n,
    ensures
        t.measured(q, coin).is_stabilizer_state(),
        t.complete() ==> t.measured(q, coin).complete(),
{
    lemma_is_random_pivot(t, q);
    if t.is_random(q) {
        lemma_collapse_keeps_state(t, q, t.stabilizer_pivot(q), coin);
    }
}

/// In a stabilizer state the operator that decides a forced outcome is a
/// product of stabilizers: its coefficient is `+1` or `-1`, it commutes
/// with every stabilizer, and it anticommutes with exactly the
/// destabilizers of its factors.
pub proof fn lemma_forced_product_hermitian(t: Tableau, q: int, d: int, hi: int)
    requires
        t.is_stabilizer_state(),
        0 <= d < t.n,
        hi <= t.n,
    ensures
        t.forced_product(q, d, hi).wf(t.n),
        t.forced_product(q, d, hi).is_hermitian(),
        forall|s: int|
            t.n <= s < 2 * t.n ==> !anticommutes(t.forced_product(q, d, hi), #[trigger] t.rows[s]),
        forall|j: int|
            0 <= j < t.n ==> anticommutes(t.forced_product(q, d, hi), #[trigger] t.rows[j]) == (j
                == d || (d < j < hi && t.rows[j].x[q])),
    decreases hi - d,
{
    let n = t.n;
    assert(t.rows[n + d].wf(n) && t.rows[n + d].is_hermitian());
    if hi > d + 1 {
        lemma_forced_product_hermitian(t, q, d, hi - 1);
        let rest = t.forced_product(q, d, hi - 1);
        let next = t.rows[n + hi - 1];
        assert(next.wf(n) && next.is_hermitian());
        if t.destabilizer(hi - 1).x[q] {
            lemma_product_hermitian(rest, next);
            assert forall|s: int| n <= s < 2 * n implies !anticommutes(
                product(rest, next),
                #[trigger] t.rows[s],
            ) by {
                crate::pauli::lemma_anticommutes_product(rest, next, t.rows[s], n);
                assert(!anticommutes(next, t.rows[s]));
            }
            assert forall|j: int| 0 <= j < n implies anticommutes(
                product(rest, next),
                #[trigger] t.rows[j],
            ) == (j == d || (d < j < hi && t.rows[j].x[q])) by {
                crate::pauli::lemma_anticommutes_product(rest, next, t.rows[j], n);
                lemma_anticommutes_symmetric(next, t.rows[j], n);
                assert(anticommutes(t.rows[j], t.rows[n + hi - 1]) == (n + hi - 1 == j + n));
            }
        }
    } else {
        assert forall|s: int| n <= s < 2 * n implies !anticommutes(
            t.forced_product(q, d, hi),
            #[trigger] t.rows[s],
        ) by {
            assert(!anticommutes(t.rows[n + d], t.rows[s]));
        }
        assert forall|j: int| 0 <= j < n implies anticommutes(
            t.forced_product(q, d, hi),
            #[trigger] t.rows[j],
        ) == (j == d || (d < j < hi && t.rows[j].x[q])) by {
            lemma_anticommutes_symmetric(t.rows[n + d], t.rows[j], n);
            assert(anticommutes(t.rows[j], t.rows[n + d]) == (n + d == j + n));
        }
    }
}

/// A forced outcome is the eigenvalue of `Z` on the measured qubit: in a
/// stabilizer state with complete generators and without a stabilizer that
/// has an X bit on `q`, some destabilizer has one, and the operator that
/// decides the outcome is `Z` on `q` with the sign `+` or `-`.
pub proof fn lemma_forced_product_is_z(t: Tableau, q: int)
    requires
        t.is_complete_state(),
        0 <= q < t.n,
        !t.is_random(q),
    ensures
        0 <= t.destabilizer_pivot(q) < t.n,
        t.forced_product(q, t.destabilizer_pivot(q), t.n as int) == PauliRow::single_z(
            t.n,
            q,
            if t.forced_bit(q) {
                2
            } else {
                0
            },
        ),
{
    reveal(Tableau::complete);
    let n = t.n;
    let d = t.destabilizer_pivot(q);
    lemma_first_set(t.rows, q, 0, n as int);
    let zq = PauliRow::single_z(n, q, 0);
    assert(zq.wf(n));
    assert forall|r: int| 0 <= r < 2 * n implies anticommutes(zq, #[trigger] t.rows[r])
        == t.rows[r].x[q] by {
        assert(t.rows[r].wf(n));
        lemma_anticommutes_single_z(t.rows[r], n, q, 0);
        lemma_anticommutes_symmetric(t.rows[r], zq, n);
    }
    assert forall|r: int| 0 <= r < d implies !(#[trigger] t.rows[r]).x[q] by {
        assert(t.rows[r].wf(n));
        assert(!t.rows[r].bit(q));
    }
    if d == n {
        // Z on q would commute with every generator
        assert(t.commutes_with_all(zq));
        assert(zq.is_scalar());
        assert(zq.z[q]);
    }
    assert(t.rows[d].wf(n));
    assert(t.rows[d].bit(q));
    lemma_forced_product_hermitian(t, q, d, n as int);
    let p = t.forced_product(q, d, n as int);
    let v = product(p, zq);
    assert(v.wf(n));
    assert forall|r: int| 0 <= r < 2 * n implies !anticommutes(v, #[trigger] t.rows[r]) by {
        crate::pauli::lemma_anticommutes_product(p, zq, t.rows[r], n);
    }
    assert(t.commutes_with_all(v));
    assert(v.is_scalar());
    assert(p.x =~= zq.x) by {
        assert forall|c: int| 0 <= c < n implies p.x[c] == zq.x[c] by {
            assert(!v.x[c]);
        }
    }
    assert(p.z =~= zq.z) by {
        assert forall|c: int| 0 <= c < n implies p.z[c] == zq.z[c] by {
            assert(!v.z[c]);
        }
    }
}

/// After a collapse on qubit `q` no destabilizer after the pivot has an X
/// bit on `q`, so the forced product for `q` is the new stabilizer of the
/// pivot.
proof fn lemma_collapsed_forced_product(t: Tableau, q: int, p: int, coin: bool, hi: int)
    requires
        t.wf(),
        0 <= q < t.n,
        0 <= p < t.n,
        t.stabilizer(p).x[q],
        hi <= t.n,
    ensures
        t.collapse(q, p, coin).forced_product(q, p, hi) == t.collapse(q, p, coin).stabilizer(p),
    decreases hi - p,
{
    if hi > p + 1 {
        lemma_collapsed_forced_product(t, q, p, coin, hi - 1);
        assert(t.rows[hi - 1].wf(t.n));
        assert(t.rows[t.n + p].wf(t.n));
    }
}

/// Measuring a qubit a second time gives the bit of the first
/// measurement, now as a forced outcome.
pub proof fn lemma_measurement_repeats(t: Tableau, q: int, coin: bool, again: bool)
    requires
        t.wf(),
        0 <= q < t.n,
    ensures
        t.measured(q, coin).outcome(q, false, again) == match t.outcome(q, false, coin) {
            MeasureReturns::RandomOne => MeasureReturns::AlwaysOne,
            MeasureReturns::AlwaysOne => MeasureReturns::AlwaysOne,
            MeasureReturns::RandomZero => MeasureReturns::AlwaysZero,
            MeasureReturns::AlwaysZero => MeasureReturns::AlwaysZero,
        },
{
    lemma_is_random_pivot(t, q);
    if t.is_random(q) {
        let n = t.n;
        let p = t.stabilizer_pivot(q);
        let u = t.collapse(q, p, coin);
        let pivot = t.rows[n + p];
        assert(pivot.wf(n));
        assert forall|r: int| 0 <= r < 2 * n implies (#[trigger] u.rows[r]).x[q] == (r == p) by {
            assert(t.rows[r].wf(n));
        }
        assert(!u.is_random(q));
        lemma_first_set(u.rows, q, 0, n as int);
        assert(u.rows[p].wf(n));
        assert(u.rows[p].bit(q));
        let d = u.destabilizer_pivot(q);
        if d < p {
            assert(u.rows[d].wf(n));
            assert(u.rows[d].bit(q));
        }
        assert(d == p);
        lemma_collapsed_forced_product(t, q, p, coin, n as int);
    }
}

/// On the ground tableau no destabilizer above `q` has an X bit on `q`, so
/// the forced product for qubit `q` is stabilizer `q` itself.
proof fn lemma_ground_forced_product(n: nat, q: int, hi: int)
    requires
        0 <= q < n,
        hi <= n,
    ensures
        Tableau::ground(n).forced_product(q, q, hi) == Tableau::ground(n).stabilizer(q),
    decreases hi - q,
{
    if hi > q + 1 {
        lemma_ground_forced_product(n, q, hi - 1);
    }
}

/// Measuring any qubit of the ground tableau gives `AlwaysZero` and leaves
/// the tableau as it is.
pub proof fn lemma_ground_measures_zero(n: nat, q: int, suppress: bool, coin: bool)
    requires
        n >= 1,
        0 <= q < n,
    ensures
        Tableau::ground(n).outcome(q, suppress, coin) == MeasureReturns::AlwaysZero,
        Tableau::ground(n).measured(q, coin) == Tableau::ground(n),
{
    let t = Tableau::ground(n);
    assert(!t.is_random(q));
    lemma_first_set(t.rows, q, 0, n as int);
    let d = t.destabilizer_pivot(q);
    assert(t.rows[q].bit(q));
    if d < n {
        assert(t.rows[d].bit(q));
        assert(d == q);
        lemma_ground_forced_product(n, q, n as int);
    }
}

impl CliffordSimulator {
    /// Measures `qubit` in the computational basis, drawing a fair coin
    /// when the outcome is random.
    ///
    /// With `suppress` set, a forced outcome is not worked out and is
    /// reported as `AlwaysZero`. The state and the value returned are those
    /// of [`CliffordSimulator::measure_with_coin`] for one of the two values
    /// of the coin.
    pub fn measure(&mut self, qubit: usize, suppress: bool) -> (result: MeasureReturns)
        requires
            old(self).wf(),
            qubit < old(self).qubits(),
        ensures
            final(self).wf(),
            final(self).qubits() == old(self).qubits(),
            exists|coin: bool|
                final(self)@ == old(self)@.measured(qubit as int, coin) && result == old(
                    self,
                )@.outcome(qubit as int, suppress, coin),
            final(self).scratch() == old(self)@.measured_scratch(
                qubit as int,
                suppress,
                old(self).scratch(),
            ),
            old(self)@.is_stabilizer_state() ==> final(self)@.is_stabilizer_state(),
            old(self)@.is_complete_state() ==> final(self)@.is_complete_state(),
    {
        let s_pivot = self.random_pivot(qubit);
        if let Some(s_pivot) = s_pivot {
            let coin = random_u64() % 2 == 1;
            let result = self.collapse(qubit, s_pivot, coin);
            assert(self@ == old(self)@.measured(qubit as int, coin) && result == old(
                self,
            )@.outcome(qubit as int, suppress, coin));
            proof {
                if old(self)@.is_stabilizer_state() {
                    lemma_measured_keeps_state(old(self)@, qubit as int, coin);
                }
            }
            return result;
        }
        let result = self.forced(qubit, suppress);
        assert(self@ == old(self)@.measured(qubit as int, false) && result == old(self)@.outcome(
            qubit as int,
            suppress,
            false,
        ));
        result
    }

    /// Measures `qubit` in the computational basis, with `coin` as the bit
    /// to use if the outcome is random.
    ///
    /// With `suppress` set, a forced outcome is not worked out and is
    /// reported as `AlwaysZero`. A forced outcome leaves the logical state
    /// unchanged.
    pub fn measure_with_coin(&mut self, qubit: usize, suppress: bool, coin: bool) -> (result:
        MeasureReturns)
        requires
            old(self).wf(),
            qubit < old(self).qubits(),
        ensures
            final(self).wf(),
            final(self).qubits() == old(self).qubits(),
            final(self)@ == old(self)@.measured(qubit as int, coin),
            result == old(self)@.outcome(qubit as int, suppress, coin),
            final(self).scratch() == old(self)@.measured_scratch(
                qubit as int,
                suppress,
                old(self).scratch(),
            ),
            old(self)@.is_stabilizer_state() ==> final(self)@.is_stabilizer_state(),
            old(self)@.is_complete_state() ==> final(self)@.is_complete_state(),
    {
        proof {
            if old(self)@.is_stabilizer_state() {
                lemma_measured_keeps_state(old(self)@, qubit as int, coin);
            }
        }
        match self.random_pivot(qubit) {
            Some(s_pivot) => self.collapse(qubit, s_pivot, coin),
            None => self.forced(qubit, suppress),
        }
    }

    /// Finds the first stabilizer generator with an X bit on `qubit`.
    fn random_pivot(&self, qubit: usize) -> (found: Option<usize>)
        requires
            self.wf(),
            qubit < self.qubits(),
        ensures
            found is Some == self@.is_random(qubit as int),
            found is Some ==> found->0 == self@.stabilizer_pivot(qubit as int) && found->0
                < self.qubits(),
    {
        proof {
            lemma_is_random_pivot(self@, qubit as int);
        }
        let n = self.get_size();
        match self.find_row(qubit, n, self.total_size()) {
            Some(row) => Some(row - n),
            None => None,
        }
    }

    /// Collapses the state for a random outcome: pivots on stabilizer
    /// `s_pivot` and records `coin` as the bit measured.
    fn collapse(&mut self, qubit: usize, s_pivot: usize, coin: bool) -> (result: MeasureReturns)
        requires
            old(self).wf(),
            qubit < old(self).qubits(),
            s_pivot < old(self).qubits(),
        ensures
            final(self).wf(),
            final(self).qubits() == old(self).qubits(),
            final(self)@ == old(self)@.collapse(qubit as int, s_pivot as int, coin),
            final(self).scratch() == old(self).scratch(),
            result == if coin {
                MeasureReturns::RandomOne
            } else {
                MeasureReturns::RandomZero
            },
    {
        let ghost before = self.rows();
        let ghost n = self.qubits();
        let ghost pivot = before[n + s_pivot];
        let ghost zq = PauliRow::single_z(
            n,
            qubit as int,
            if coin {
                2
            } else {
                0
            },
        );
        let d_row = self.d_index(s_pivot);
        let s_row = self.s_index(s_pivot);
        self.copy_rows(d_row, s_row);
        let z_col = self.s_index(qubit);
        self.set_row(s_row, z_col);
        self.set_phase(
            s_row,
            if coin {
                2
            } else {
                0
            },
        );
        assert(self.rows() =~~= Seq::new(
            2 * n + 1,
            |r: int|
                if r == s_pivot {
                    pivot
                } else if r == n + s_pivot {
                    zq
                } else if r < 0 && before[r].x[qubit as int] {
                    product(before[r], pivot)
                } else {
                    before[r]
                },
        ));

        let total_size = self.total_size();
        for i in 0..total_size
            invariant
                total_size == 2 * n,
                qubit < n,
                s_pivot < n,
                d_row == s_pivot,
                s_row == n + s_pivot,
                self.wf(),
                self.qubits() == n,
                before.len() == 2 * n + 1,
                forall|r: int| 0 <= r < before.len() ==> (#[trigger] before[r]).wf(n),
                pivot == before[n + s_pivot],
                zq == PauliRow::single_z(
                    n,
                    qubit as int,
                    if coin {
                        2
                    } else {
                        0
                    },
                ),
                self.rows() == Seq::new(
                    2 * n + 1,
                    |r: int|
                        if r == s_pivot {
                            pivot
                        } else if r == n + s_pivot {
                            zq
                        } else if r < i && before[r].x[qubit as int] {
                            product(before[r], pivot)
                        } else {
                            before[r]
                        },
                ),
        {
            if i != d_row && self.x_bit(i, qubit) {
                self.mult_row(i, d_row);
            }
            assert(self.rows() =~~= Seq::new(
                2 * n + 1,
                |r: int|
                    if r == s_pivot {
                        pivot
                    } else if r == n + s_pivot {
                        zq
                    } else if r < i + 1 && before[r].x[qubit as int] {
                        product(before[r], pivot)
                    } else {
                        before[r]
                    },
            ));
        }
        assert(self@ =~~= old(self)@.collapse(qubit as int, s_pivot as int, coin));

        if self.phase_of(s_row) != 0 {
            MeasureReturns::RandomOne
        } else {
            MeasureReturns::RandomZero
        }
    }

    /// Works out a forced outcome in the scratch row, unless `suppress` is
    /// set.
    fn forced(&mut self, qubit: usize, suppress: bool) -> (result: MeasureReturns)
        requires
            old(self).wf(),
            qubit < old(self).qubits(),
        ensures
            final(self).wf(),
            final(self).qubits() == old(self).qubits(),
            final(self)@ == old(self)@,
            final(self).scratch() == if !suppress && old(self)@.destabilizer_pivot(qubit as int)
                < old(self).qubits() {
                old(self)@.forced_product(
                    qubit as int,
                    old(self)@.destabilizer_pivot(qubit as int),
                    old(self).qubits() as int,
                )
            } else {
                old(self).scratch()
            },
            result == if !suppress && old(self)@.forced_bit(qubit as int) {
                MeasureReturns::AlwaysOne
            } else {
                MeasureReturns::AlwaysZero
            },
    {
        if !suppress {
            let ghost t = self@;
            let ghost before = self.rows();
            let ghost n = self.qubits();
            let size = self.get_size();
            let d_pivot = self.find_row(qubit, 0, size);

            if let Some(d_pivot) = d_pivot {
                let buffer = self.buffer_index();
                let paired = self.s_index(d_pivot);
                self.copy_rows(buffer, paired);
                for i in (d_pivot + 1)..size
                    invariant
                        size == n,
                        qubit < n,
                        d_pivot < n,
                        buffer == 2 * n,
                        self.wf(),
                        self.qubits() == n,
                        before.len() == 2 * n + 1,
                        t.n == n,
                        t.rows == before.subrange(0, 2 * n as int),
                        self.rows() == before.update(
                            2 * n as int,
                            t.forced_product(qubit as int, d_pivot as int, i as int),
                        ),
                {
                    if self.x_bit(i, qubit) {
                        let s_row = self.s_index(i);
                        self.mult_row(buffer, s_row);
                    }
                }
                assert(self@ =~= t);

                if self.phase_of(buffer) != 0 {
                    return MeasureReturns::AlwaysOne;
                } else {
                    return MeasureReturns::AlwaysZero;
                }
            }
        }

        MeasureReturns::AlwaysZero
    }
}

} // verus!
