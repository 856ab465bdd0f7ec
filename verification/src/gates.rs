//! The Clifford gates: their action on a generator, on a whole tableau,
//! and the executable passes over the stored rows.

use crate::pauli::{
    anticommutes, lemma_anticommutes_pairwise, lemma_anticommutes_pointwise, Pauli, PauliRow,
};
use crate::simulator::CliffordSimulator;
use crate::tableau::Tableau;
use vstd::prelude::*;

verus! {

/// Conjugation by Hadamard on qubit `q`: the X and Z bits of `q` change
/// places, and a row labelled `Y` there changes sign.
pub open spec fn hadamard_row(r: PauliRow, q: int) -> PauliRow {
    PauliRow { x: r.x.update(q, r.z[q]), z: r.z.update(q, r.x[q]), phase: r.phase }.negated_if(
        r.label(q) == Pauli::Y,
    )
}

/// Conjugation by the phase gate `S` on qubit `q`: `X` becomes `Y`, `Y`
/// becomes `-X`, `Z` stays.
pub open spec fn phase_row(r: PauliRow, q: int) -> PauliRow {
    r.with_z(q, r.z[q] != r.x[q]).negated_if(r.label(q) == Pauli::Y)
}

/// Whether conjugation by CNOT changes the sign of a row with the given
/// labels on the control and on the target: it does for `X` with `Z` and
/// for `Y` with `Y`.
pub open spec fn cnot_flips(control: Pauli, target: Pauli) -> bool {
    match (control, target) {
        (Pauli::X, Pauli::Z) => true,
        (Pauli::Y, Pauli::Y) => true,
        _ => false,
    }
}

/// Conjugation by CNOT: the X bit of the control is added to the X bit of
/// the target, the Z bit of the target to the Z bit of the control, and the
/// sign changes as `cnot_flips` says of the labels before the update.
pub open spec fn cnot_row(r: PauliRow, control: int, target: int) -> PauliRow {
    PauliRow {
        x: r.x.update(target, r.x[target] != r.x[control]),
        z: r.z.update(control, r.z[control] != r.z[target]),
        phase: r.phase,
    }.negated_if(cnot_flips(r.label(control), r.label(target)))
}

/// Conjugation by the adjoint of the phase gate on qubit `q`: `X` becomes
/// `-Y`, `Y` becomes `X`, `Z` stays.
pub open spec fn phase_adjoint_row(r: PauliRow, q: int) -> PauliRow {
    r.with_z(q, r.z[q] != r.x[q]).negated_if(r.label(q) == Pauli::X)
}

impl Tableau {
    /// The tableau after a Hadamard gate on qubit `q`.
    pub open spec fn hadamard(self, q: int) -> Tableau {
        Tableau {
            n: self.n,
            rows: Seq::new(self.rows.len(), |r: int| hadamard_row(self.rows[r], q)),
        }
    }

    /// The tableau after a phase gate on qubit `q`.
    pub open spec fn phase_gate(self, q: int) -> Tableau {
        Tableau { n: self.n, rows: Seq::new(self.rows.len(), |r: int| phase_row(self.rows[r], q)) }
    }

    /// The tableau after a CNOT gate.
    pub open spec fn cnot(self, control: int, target: int) -> Tableau {
        Tableau {
            n: self.n,
            rows: Seq::new(self.rows.len(), |r: int| cnot_row(self.rows[r], control, target)),
        }
    }

    /// The tableau after a Pauli-Z gate on qubit `q`: every generator with
    /// an X bit on `q` changes sign.
    pub open spec fn pauli_z(self, q: int) -> Tableau {
        Tableau {
            n: self.n,
            rows: Seq::new(self.rows.len(), |r: int| self.rows[r].negated_if(self.rows[r].x[q])),
        }
    }

    /// The tableau after a Pauli-X gate on qubit `q`: every generator with
    /// a Z bit on `q` changes sign.
    pub open spec fn pauli_x(self, q: int) -> Tableau {
        Tableau {
            n: self.n,
            rows: Seq::new(self.rows.len(), |r: int| self.rows[r].negated_if(self.rows[r].z[q])),
        }
    }

    /// The tableau after a Pauli-Y gate on qubit `q`: every generator
    /// labelled `X` or `Z` on `q` changes sign.
    pub open spec fn pauli_y(self, q: int) -> Tableau {
        Tableau {
            n: self.n,
            rows: Seq::new(
                self.rows.len(),
                |r: int| self.rows[r].negated_if(self.rows[r].x[q] != self.rows[r].z[q]),
            ),
        }
    }

    /// The tableau after the adjoint of the phase gate on qubit `q`.
    pub open spec fn phase_adjoint(self, q: int) -> Tableau {
        Tableau {
            n: self.n,
            rows: Seq::new(self.rows.len(), |r: int| phase_adjoint_row(self.rows[r], q)),
        }
    }
}

/// Two phase gates make a Pauli-Z gate.
pub proof fn lemma_phase_twice_is_pauli_z(t: Tableau, q: int)
    requires
        t.wf(),
        0 <= q < t.n,
    ensures
        t.phase_gate(q).phase_gate(q) == t.pauli_z(q),
{
    assert(t.phase_gate(q).phase_gate(q) =~~= t.pauli_z(q));
}

/// A Pauli-Z gate followed by a phase gate makes the adjoint of the phase
/// gate.
pub proof fn lemma_pauli_z_then_phase_is_adjoint(t: Tableau, q: int)
    requires
        t.wf(),
        0 <= q < t.n,
    ensures
        t.pauli_z(q).phase_gate(q) == t.phase_adjoint(q),
{
    assert(t.pauli_z(q).phase_gate(q) =~~= t.phase_adjoint(q));
}

/// A Pauli-Z gate between two Hadamard gates makes a Pauli-X gate.
pub proof fn lemma_hadamard_z_hadamard_is_pauli_x(t: Tableau, q: int)
    requires
        t.wf(),
        0 <= q < t.n,
    ensures
        t.hadamard(q).pauli_z(q).hadamard(q) == t.pauli_x(q),
{
    assert(t.hadamard(q).pauli_z(q).hadamard(q) =~~= t.pauli_x(q));
}

/// A phase gate, a Pauli-X gate and the adjoint of the phase gate make a
/// Pauli-Y gate.
pub proof fn lemma_phase_x_adjoint_is_pauli_y(t: Tableau, q: int)
    requires
        t.wf(),
        0 <= q < t.n,
    ensures
        t.phase_gate(q).pauli_x(q).phase_adjoint(q) == t.pauli_y(q),
{
    assert(t.phase_gate(q).pauli_x(q).phase_adjoint(q) =~~= t.pauli_y(q));
}

/// A Pauli-X gate between two Pauli-Z gates acts on a tableau as the
/// Pauli-X gate alone: a tableau does not record the sign of a gate.
pub proof fn lemma_z_x_z_is_pauli_x(t: Tableau, q: int)
    requires
        t.wf(),
        0 <= q < t.n,
    ensures
        t.pauli_z(q).pauli_x(q).pauli_z(q) == t.pauli_x(q),
{
    assert(t.pauli_z(q).pauli_x(q).pauli_z(q) =~~= t.pauli_x(q));
}

/// A Pauli-Y gate between two Pauli-Z gates acts on a tableau as the
/// Pauli-Y gate alone.
pub proof fn lemma_z_y_z_is_pauli_y(t: Tableau, q: int)
    requires
        t.wf(),
        0 <= q < t.n,
    ensures
        t.pauli_z(q).pauli_y(q).pauli_z(q) == t.pauli_y(q),
{
    assert(t.pauli_z(q).pauli_y(q).pauli_z(q) =~~= t.pauli_y(q));
}

/// Applying a Hadamard gate twice to the same qubit restores the tableau,
/// bit for bit and phase for phase.
pub proof fn lemma_hadamard_twice(t: Tableau, q: int)
    requires
        t.wf(),
        0 <= q < t.n,
    ensures
        t.hadamard(q).hadamard(q) == t,
{
    assert(t.hadamard(q).hadamard(q) =~~= t);
}

/// Applying a Pauli-Z gate twice to the same qubit restores the tableau,
/// bit for bit and phase for phase.
pub proof fn lemma_pauli_z_twice(t: Tableau, q: int)
    requires
        t.wf(),
        0 <= q < t.n,
    ensures
        t.pauli_z(q).pauli_z(q) == t,
{
    assert(t.pauli_z(q).pauli_z(q) =~~= t);
}

/// Hadamard conjugation keeps the symplectic product of any two rows.
pub proof fn lemma_hadamard_keeps_anticommutes(a: PauliRow, b: PauliRow, n: nat, q: int)
    requires
        a.wf(n),
        b.wf(n),
        0 <= q < n,
    ensures
        anticommutes(hadamard_row(a, q), hadamard_row(b, q)) == anticommutes(a, b),
{
    lemma_anticommutes_pointwise(hadamard_row(a, q), hadamard_row(b, q), a, b, n);
}

/// Phase-gate conjugation keeps the symplectic product of any two rows.
pub proof fn lemma_phase_keeps_anticommutes(a: PauliRow, b: PauliRow, n: nat, q: int)
    requires
        a.wf(n),
        b.wf(n),
        0 <= q < n,
    ensures
        anticommutes(phase_row(a, q), phase_row(b, q)) == anticommutes(a, b),
{
    lemma_anticommutes_pointwise(phase_row(a, q), phase_row(b, q), a, b, n);
}

/// CNOT conjugation with distinct control and target keeps the symplectic
/// product of any two rows.
pub proof fn lemma_cnot_keeps_anticommutes(
    a: PauliRow,
    b: PauliRow,
    n: nat,
    control: int,
    target: int,
)
    requires
        a.wf(n),
        b.wf(n),
        0 <= control < n,
        0 <= target < n,
        control != target,
    ensures
        anticommutes(cnot_row(a, control, target), cnot_row(b, control, target)) == anticommutes(
            a,
            b,
        ),
{
    lemma_anticommutes_pairwise(
        cnot_row(a, control, target),
        cnot_row(b, control, target),
        a,
        b,
        control,
        target,
        n,
    );
}

/// A tableau whose rows are the images of another's under a map that
/// keeps well-formedness, real coefficients and symplectic products is a
/// stabilizer state when the other is.
proof fn lemma_conjugation_keeps_state(t: Tableau, u: Tableau, f: spec_fn(PauliRow) -> PauliRow)
    requires
        t.is_stabilizer_state(),
        u.n == t.n,
        u.rows.len() == t.rows.len(),
        forall|r: int| 0 <= r < t.rows.len() ==> #[trigger] u.rows[r] == f(t.rows[r]),
        forall|a: PauliRow|
            a.wf(t.n) ==> (#[trigger] f(a)).wf(t.n) && f(a).is_hermitian() == a.is_hermitian() && (
            a.is_scalar() ==> f(a).is_scalar()),
        forall|a: PauliRow| a.wf(t.n) ==> (#[trigger] f(f(a))).x == a.x && f(f(a)).z == a.z,
        forall|a: PauliRow, b: PauliRow|
            a.wf(t.n) && b.wf(t.n) ==> anticommutes(#[trigger] f(a), #[trigger] f(b))
                == anticommutes(a, b),
    ensures
        u.is_stabilizer_state(),
        t.complete() ==> u.complete(),
{
    let n = t.n;
    if t.complete() {
        assert(u.complete()) by {
            reveal(Tableau::complete);
            assert forall|v: PauliRow|
                #[trigger] v.wf(n) && u.commutes_with_all(v) implies v.is_scalar() by {
                let w = f(v);
                assert(w.wf(n));
                assert(f(w).wf(n));
                assert forall|r: int|
                    0 <= r < 2 * n implies !anticommutes(w, #[trigger] t.rows[r]) by {
                    assert(t.rows[r].wf(n));
                    assert(anticommutes(f(w), f(t.rows[r])) == anticommutes(w, t.rows[r]));
                    assert(u.rows[r] == f(t.rows[r]));
                    lemma_anticommutes_pointwise(f(w), u.rows[r], v, u.rows[r], n);
                    assert(!anticommutes(v, u.rows[r]));
                }
                assert(t.commutes_with_all(w));
                assert(w.is_scalar());
                assert(f(w).is_scalar());
            }
        }
    }
    assert forall|r: int| 0 <= r < u.rows.len() implies (#[trigger] u.rows[r]).wf(u.n) by {
        assert(t.rows[r].wf(t.n));
    }
    assert forall|s: int| u.n <= s < 2 * u.n implies (#[trigger] u.rows[s]).is_hermitian() by {
        assert(t.rows[s].is_hermitian());
        assert(t.rows[s].wf(t.n));
    }
    assert forall|s: int, v: int| u.n <= s < 2 * u.n && u.n <= v < 2 * u.n implies !anticommutes(
        u.rows[s],
        u.rows[v],
    ) by {
        assert(t.rows[s].wf(t.n) && t.rows[v].wf(t.n));
        assert(!anticommutes(t.rows[s], t.rows[v]));
    }
    assert forall|d: int, s: int| 0 <= d < u.n && u.n <= s < 2 * u.n implies anticommutes(
        u.rows[d],
        u.rows[s],
    ) == (s == d + u.n) by {
        assert(t.rows[d].wf(t.n) && t.rows[s].wf(t.n));
        assert(anticommutes(t.rows[d], t.rows[s]) == (s == d + t.n));
    }
}

/// A Hadamard gate maps stabilizer states to stabilizer states.
pub proof fn lemma_hadamard_keeps_state(t: Tableau, q: int)
    requires
        t.is_stabilizer_state(),
        0 <= q < t.n,
    ensures
        t.hadamard(q).is_stabilizer_state(),
        t.complete() ==> t.hadamard(q).complete(),
{
    let f = |r: PauliRow| hadamard_row(r, q);
    assert forall|a: PauliRow| a.wf(t.n) implies (#[trigger] f(f(a))).x == a.x && f(f(a)).z
        == a.z by {
        assert(f(f(a)).x =~= a.x);
        assert(f(f(a)).z =~= a.z);
    }
    assert forall|a: PauliRow, b: PauliRow| a.wf(t.n) && b.wf(t.n) implies anticommutes(
        #[trigger] f(a),
        #[trigger] f(b),
    ) == anticommutes(a, b) by {
        lemma_hadamard_keeps_anticommutes(a, b, t.n, q);
    }
    lemma_conjugation_keeps_state(t, t.hadamard(q), f);
}

/// A phase gate maps stabilizer states to stabilizer states.
pub proof fn lemma_phase_keeps_state(t: Tableau, q: int)
    requires
        t.is_stabilizer_state(),
        0 <= q < t.n,
    ensures
        t.phase_gate(q).is_stabilizer_state(),
        t.complete() ==> t.phase_gate(q).complete(),
{
    let f = |r: PauliRow| phase_row(r, q);
    assert forall|a: PauliRow| a.wf(t.n) implies (#[trigger] f(f(a))).x == a.x && f(f(a)).z
        == a.z by {
        assert(f(f(a)).x =~= a.x);
        assert(f(f(a)).z =~= a.z);
    }
    assert forall|a: PauliRow, b: PauliRow| a.wf(t.n) && b.wf(t.n) implies anticommutes(
        #[trigger] f(a),
        #[trigger] f(b),
    ) == anticommutes(a, b) by {
        lemma_phase_keeps_anticommutes(a, b, t.n, q);
    }
    lemma_conjugation_keeps_state(t, t.phase_gate(q), f);
}

/// A CNOT gate with distinct control and target maps stabilizer states to
/// stabilizer states.
pub proof fn lemma_cnot_keeps_state(t: Tableau, control: int, target: int)
    requires
        t.is_stabilizer_state(),
        0 <= control < t.n,
        0 <= target < t.n,
        control != target,
    ensures
        t.cnot(control, target).is_stabilizer_state(),
        t.complete() ==> t.cnot(control, target).complete(),
{
    let f = |r: PauliRow| cnot_row(r, control, target);
    assert forall|a: PauliRow| a.wf(t.n) implies (#[trigger] f(f(a))).x == a.x && f(f(a)).z
        == a.z by {
        assert(f(f(a)).x =~= a.x);
        assert(f(f(a)).z =~= a.z);
    }
    assert forall|a: PauliRow, b: PauliRow| a.wf(t.n) && b.wf(t.n) implies anticommutes(
        #[trigger] f(a),
        #[trigger] f(b),
    ) == anticommutes(a, b) by {
        lemma_cnot_keeps_anticommutes(a, b, t.n, control, target);
    }
    lemma_conjugation_keeps_state(t, t.cnot(control, target), f);
}

/// A Pauli-Z gate maps stabilizer states to stabilizer states.
pub proof fn lemma_pauli_z_keeps_state(t: Tableau, q: int)
    requires
        t.is_stabilizer_state(),
        0 <= q < t.n,
    ensures
        t.pauli_z(q).is_stabilizer_state(),
        t.complete() ==> t.pauli_z(q).complete(),
{
    lemma_phase_keeps_state(t, q);
    lemma_phase_keeps_state(t.phase_gate(q), q);
    lemma_phase_twice_is_pauli_z(t, q);
}

/// The adjoint of the phase gate maps stabilizer states to stabilizer
/// states.
pub proof fn lemma_phase_adjoint_keeps_state(t: Tableau, q: int)
    requires
        t.is_stabilizer_state(),
        0 <= q < t.n,
    ensures
        t.phase_adjoint(q).is_stabilizer_state(),
        t.complete() ==> t.phase_adjoint(q).complete(),
{
    lemma_pauli_z_keeps_state(t, q);
    lemma_phase_keeps_state(t.pauli_z(q), q);
    lemma_pauli_z_then_phase_is_adjoint(t, q);
}

/// A Pauli-X gate maps stabilizer states to stabilizer states.
pub proof fn lemma_pauli_x_keeps_state(t: Tableau, q: int)
    requires
        t.is_stabilizer_state(),
        0 <= q < t.n,
    ensures
        t.pauli_x(q).is_stabilizer_state(),
        t.complete() ==> t.pauli_x(q).complete(),
{
    lemma_hadamard_keeps_state(t, q);
    lemma_pauli_z_keeps_state(t.hadamard(q), q);
    lemma_hadamard_keeps_state(t.hadamard(q).pauli_z(q), q);
    lemma_hadamard_z_hadamard_is_pauli_x(t, q);
}

/// A Pauli-Y gate maps stabilizer states to stabilizer states.
pub proof fn lemma_pauli_y_keeps_state(t: Tableau, q: int)
    requires
        t.is_stabilizer_state(),
        0 <= q < t.n,
    ensures
        t.pauli_y(q).is_stabilizer_state(),
        t.complete() ==> t.pauli_y(q).complete(),
{
    lemma_phase_keeps_state(t, q);
    lemma_pauli_x_keeps_state(t.phase_gate(q), q);
    lemma_phase_adjoint_keeps_state(t.phase_gate(q).pauli_x(q), q);
    lemma_phase_x_adjoint_is_pauli_y(t, q);
}

impl CliffordSimulator {
    /// Applies a Hadamard gate to `qubit`.
    pub fn h(&mut self, qubit: usize)
        requires
            old(self).wf(),
            qubit < old(self).qubits(),
        ensures
            final(self).wf(),
            final(self).qubits() == old(self).qubits(),
            final(self)@ == old(self)@.hadamard(qubit as int),
            final(self).scratch() == old(self).scratch(),
            old(self)@.is_stabilizer_state() ==> final(self)@.is_stabilizer_state(),
            old(self)@.is_complete_state() ==> final(self)@.is_complete_state(),
    {
        let ghost before = self.rows();
        let ghost n = self.qubits();
        let total_size = self.total_size();
        assert(before =~= Seq::new(
            2 * n + 1,
            |r: int| if r < 0 { hadamard_row(before[r], qubit as int) } else { before[r] },
        ));
        for i in 0..total_size
            invariant
                total_size == 2 * n,
                qubit < n,
                self.wf(),
                self.qubits() == n,
                before.len() == 2 * n + 1,
                forall|r: int| 0 <= r < before.len() ==> (#[trigger] before[r]).wf(n),
                self.rows() == Seq::new(
                    2 * n + 1,
                    |r: int| if r < i { hadamard_row(before[r], qubit as int) } else { before[r] },
                ),
        {
            let tmp = self.x_bit(i, qubit);
            let z = self.z_bit(i, qubit);
            self.set_x_bit(i, qubit, z);
            self.set_z_bit(i, qubit, tmp);

            if self.is_y(i, qubit) {
                self.add_phase(i);
            }
            assert(before[i as int].wf(n));
            assert(self.rows() =~~= Seq::new(
                2 * n + 1,
                |r: int| if r < i + 1 { hadamard_row(before[r], qubit as int) } else { before[r] },
            ));
        }
        assert(self@ =~~= old(self)@.hadamard(qubit as int));
        proof {
            if old(self)@.is_stabilizer_state() {
                lemma_hadamard_keeps_state(old(self)@, qubit as int);
            }
        }
    }

    /// Applies a phase gate to `qubit`.
    pub fn s(&mut self, qubit: usize)
        requires
            old(self).wf(),
            qubit < old(self).qubits(),
        ensures
            final(self).wf(),
            final(self).qubits() == old(self).qubits(),
            final(self)@ == old(self)@.phase_gate(qubit as int),
            final(self).scratch() == old(self).scratch(),
            old(self)@.is_stabilizer_state() ==> final(self)@.is_stabilizer_state(),
            old(self)@.is_complete_state() ==> final(self)@.is_complete_state(),
    {
        let ghost before = self.rows();
        let ghost n = self.qubits();
        let total_size = self.total_size();
        assert(before =~= Seq::new(
            2 * n + 1,
            |r: int| if r < 0 { phase_row(before[r], qubit as int) } else { before[r] },
        ));
        for i in 0..total_size
            invariant
                total_size == 2 * n,
                qubit < n,
                self.wf(),
                self.qubits() == n,
                before.len() == 2 * n + 1,
                forall|r: int| 0 <= r < before.len() ==> (#[trigger] before[r]).wf(n),
                self.rows() == Seq::new(
                    2 * n + 1,
                    |r: int| if r < i { phase_row(before[r], qubit as int) } else { before[r] },
                ),
        {
            if self.is_y(i, qubit) {
                self.add_phase(i);
            }
            let z = self.z_bit(i, qubit) ^ self.x_bit(i, qubit);
            self.set_z_bit(i, qubit, z);
            assert(before[i as int].wf(n));
            assert(self.rows() =~~= Seq::new(
                2 * n + 1,
                |r: int| if r < i + 1 { phase_row(before[r], qubit as int) } else { before[r] },
            ));
        }
        assert(self@ =~~= old(self)@.phase_gate(qubit as int));
        proof {
            if old(self)@.is_stabilizer_state() {
                lemma_phase_keeps_state(old(self)@, qubit as int);
            }
        }
    }

    /// Applies a CNOT gate with the given control and target qubits.
    ///
    /// The contract covers equal indices too, but only a gate with distinct
    /// control and target keeps a stabilizer state a stabilizer state.
    pub fn cnot(&mut self, control: usize, target: usize)
        requires
            old(self).wf(),
            control < old(self).qubits(),
            target < old(self).qubits(),
        ensures
            final(self).wf(),
            final(self).qubits() == old(self).qubits(),
            final(self)@ == old(self)@.cnot(control as int, target as int),
            final(self).scratch() == old(self).scratch(),
            old(self)@.is_stabilizer_state() && control != target
                ==> final(self)@.is_stabilizer_state(),
            old(self)@.is_complete_state() && control != target
                ==> final(self)@.is_complete_state(),
    {
        let ghost before = self.rows();
        let ghost n = self.qubits();
        let total_size = self.total_size();
        assert(before =~= Seq::new(
            2 * n + 1,
            |r: int|
                if r < 0 {
                    cnot_row(before[r], control as int, target as int)
                } else {
                    before[r]
                },
        ));
        for i in 0..total_size
            invariant
                total_size == 2 * n,
                control < n,
                target < n,
                self.wf(),
                self.qubits() == n,
                before.len() == 2 * n + 1,
                forall|r: int| 0 <= r < before.len() ==> (#[trigger] before[r]).wf(n),
                self.rows() == Seq::new(
                    2 * n + 1,
                    |r: int|
                        if r < i {
                            cnot_row(before[r], control as int, target as int)
                        } else {
                            before[r]
                        },
                ),
        {
            let x_control = self.x_bit(i, control);
            let z_control = self.z_bit(i, control);
            let x_target = self.x_bit(i, target);
            let z_target = self.z_bit(i, target);

            self.set_x_bit(i, target, x_target ^ x_control);
            self.set_z_bit(i, control, z_control ^ z_target);

            if x_control && z_target && x_target == z_control {
                self.add_phase(i);
            }
            assert(before[i as int].wf(n));
            assert(self.rows() =~~= Seq::new(
                2 * n + 1,
                |r: int|
                    if r < i + 1 {
                        cnot_row(before[r], control as int, target as int)
                    } else {
                        before[r]
                    },
            ));
        }
        assert(self@ =~~= old(self)@.cnot(control as int, target as int));
        proof {
            if old(self)@.is_stabilizer_state() && control != target {
                lemma_cnot_keeps_state(old(self)@, control as int, target as int);
            }
        }
    }

    /// Applies a Pauli-Z gate to `qubit`, as two phase gates.
    pub fn z(&mut self, qubit: usize)
        requires
            old(self).wf(),
            qubit < old(self).qubits(),
        ensures
            final(self).wf(),
            final(self).qubits() == old(self).qubits(),
            final(self)@ == old(self)@.pauli_z(qubit as int),
            final(self).scratch() == old(self).scratch(),
            old(self)@.is_stabilizer_state() ==> final(self)@.is_stabilizer_state(),
            old(self)@.is_complete_state() ==> final(self)@.is_complete_state(),
    {
        self.s(qubit);
        self.s(qubit);
        proof {
            lemma_phase_twice_is_pauli_z(old(self)@, qubit as int);
        }
    }

    /// Applies the adjoint of the phase gate to `qubit`, as a Pauli-Z gate
    /// followed by a phase gate.
    pub fn st(&mut self, qubit: usize)
        requires
            old(self).wf(),
            qubit < old(self).qubits(),
        ensures
            final(self).wf(),
            final(self).qubits() == old(self).qubits(),
            final(self)@ == old(self)@.phase_adjoint(qubit as int),
            final(self).scratch() == old(self).scratch(),
            old(self)@.is_stabilizer_state() ==> final(self)@.is_stabilizer_state(),
            old(self)@.is_complete_state() ==> final(self)@.is_complete_state(),
    {
        self.z(qubit);
        self.s(qubit);
        proof {
            lemma_pauli_z_then_phase_is_adjoint(old(self)@, qubit as int);
        }
    }

    /// Applies a Pauli-X gate to `qubit`, as a Pauli-Z gate between two
    /// Hadamard gates.
    pub fn x(&mut self, qubit: usize)
        requires
            old(self).wf(),
            qubit < old(self).qubits(),
        ensures
            final(self).wf(),
            final(self).qubits() == old(self).qubits(),
            final(self)@ == old(self)@.pauli_x(qubit as int),
            final(self).scratch() == old(self).scratch(),
            old(self)@.is_stabilizer_state() ==> final(self)@.is_stabilizer_state(),
            old(self)@.is_complete_state() ==> final(self)@.is_complete_state(),
    {
        self.h(qubit);
        self.z(qubit);
        self.h(qubit);
        proof {
            lemma_hadamard_z_hadamard_is_pauli_x(old(self)@, qubit as int);
        }
    }

    /// Applies a Pauli-Y gate to `qubit`, as a phase gate, a Pauli-X gate
    /// and the adjoint of the phase gate.
    pub fn y(&mut self, qubit: usize)
        requires
            old(self).wf(),
            qubit < old(self).qubits(),
        ensures
            final(self).wf(),
            final(self).qubits() == old(self).qubits(),
            final(self)@ == old(self)@.pauli_y(qubit as int),
            final(self).scratch() == old(self).scratch(),
            old(self)@.is_stabilizer_state() ==> final(self)@.is_stabilizer_state(),
            old(self)@.is_complete_state() ==> final(self)@.is_complete_state(),
    {
        self.s(qubit);
        self.x(qubit);
        self.st(qubit);
        proof {
            lemma_phase_x_adjoint_is_pauli_y(old(self)@, qubit as int);
        }
    }

    /// Applies a Pauli-X gate with a minus sign to `qubit`, as a Pauli-X
    /// gate between two Pauli-Z gates. A tableau does not record the sign
    /// of a gate, so the effect is that of a Pauli-X gate.
    pub fn minus_x(&mut self, qubit: usize)
        requires
            old(self).wf(),
            qubit < old(self).qubits(),
        ensures
            final(self).wf(),
            final(self).qubits() == old(self).qubits(),
            final(self)@ == old(self)@.pauli_x(qubit as int),
            final(self).scratch() == old(self).scratch(),
            old(self)@.is_stabilizer_state() ==> final(self)@.is_stabilizer_state(),
            old(self)@.is_complete_state() ==> final(self)@.is_complete_state(),
    {
        self.z(qubit);
        self.x(qubit);
        self.z(qubit);
        proof {
            lemma_z_x_z_is_pauli_x(old(self)@, qubit as int);
        }
    }

    /// Applies a Pauli-Y gate with a minus sign to `qubit`, as a Pauli-Y
    /// gate between two Pauli-Z gates. A tableau does not record the sign
    /// of a gate, so the effect is that of a Pauli-Y gate.
    pub fn minus_y(&mut self, qubit: usize)
        requires
            old(self).wf(),
            qubit < old(self).qubits(),
        ensures
            final(self).wf(),
            final(self).qubits() == old(self).qubits(),
            final(self)@ == old(self)@.pauli_y(qubit as int),
            final(self).scratch() == old(self).scratch(),
            old(self)@.is_stabilizer_state() ==> final(self)@.is_stabilizer_state(),
            old(self)@.is_complete_state() ==> final(self)@.is_complete_state(),
    {
        self.z(qubit);
        self.y(qubit);
        self.z(qubit);
        proof {
            lemma_z_y_z_is_pauli_y(old(self)@, qubit as int);
        }
    }
}

} // verus!
