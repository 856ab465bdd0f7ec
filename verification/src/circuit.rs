//! Sequences of operations on a tableau, and what holds after any of
//! them.

use crate::canonical::lemma_canonical_keeps_state;
use crate::gates::{
    lemma_cnot_keeps_state, lemma_hadamard_keeps_state, lemma_pauli_x_keeps_state,
    lemma_pauli_y_keeps_state, lemma_pauli_z_keeps_state, lemma_phase_adjoint_keeps_state,
    lemma_phase_keeps_state,
};
use crate::measure::lemma_measured_keeps_state;
use crate::tableau::{lemma_ground_is_stabilizer_state, Tableau};
use vstd::prelude::*;

verus! {

/// One operation of the simulator, as a value.
///
/// A Pauli-X or Pauli-Y gate with a minus sign acts on a tableau as the
/// gate without the sign, and has no variant of its own. `Measure` carries
/// the bit that is drawn if the outcome is random.
pub enum Operation {
    Hadamard(int),
    Phase(int),
    Cnot(int, int),
    PauliZ(int),
    PhaseAdjoint(int),
    PauliX(int),
    PauliY(int),
    Measure(int, bool),
    Canonicalize,
}

impl Tableau {
    /// The operation names qubits of this tableau, and a CNOT gate has
    /// distinct control and target.
    pub open spec fn admits(self, op: Operation) -> bool {
        match op {
            Operation::Hadamard(q) => 0 <= q < self.n,
            Operation::Phase(q) => 0 <= q < self.n,
            Operation::Cnot(c, t) => 0 <= c < self.n && 0 <= t < self.n && c != t,
            Operation::PauliZ(q) => 0 <= q < self.n,
            Operation::PhaseAdjoint(q) => 0 <= q < self.n,
            Operation::PauliX(q) => 0 <= q < self.n,
            Operation::PauliY(q) => 0 <= q < self.n,
            Operation::Measure(q, _) => 0 <= q < self.n,
            Operation::Canonicalize => true,
        }
    }

    /// The tableau after one operation.
    pub open spec fn apply(self, op: Operation) -> Tableau {
        match op {
            Operation::Hadamard(q) => self.hadamard(q),
            Operation::Phase(q) => self.phase_gate(q),
            Operation::Cnot(c, t) => self.cnot(c, t),
            Operation::PauliZ(q) => self.pauli_z(q),
            Operation::PhaseAdjoint(q) => self.phase_adjoint(q),
            Operation::PauliX(q) => self.pauli_x(q),
            Operation::PauliY(q) => self.pauli_y(q),
            Operation::Measure(q, coin) => self.measured(q, coin),
            Operation::Canonicalize => self.canonical(),
        }
    }

    /// The tableau after a sequence of operations, applied in order.
    pub open spec fn run(self, ops: Seq<Operation>) -> Tableau
        decreases ops.len(),
    {
        if ops.len() == 0 {
            self
        } else {
            self.run(ops.drop_last()).apply(ops.last())
        }
    }

    /// Every operation of the sequence is admitted.
    pub open spec fn admits_all(self, ops: Seq<Operation>) -> bool {
        forall|i: int| 0 <= i < ops.len() ==> self.admits(#[trigger] ops[i])
    }
}

/// One admitted operation maps stabilizer states to stabilizer states on
/// the same qubits.
pub proof fn lemma_apply_keeps_state(t: Tableau, op: Operation)
    requires
        t.is_stabilizer_state(),
        t.admits(op),
    ensures
        t.apply(op).is_stabilizer_state(),
        t.complete() ==> t.apply(op).complete(),
        t.apply(op).n == t.n,
{
    match op {
        Operation::Hadamard(q) => lemma_hadamard_keeps_state(t, q),
        Operation::Phase(q) => lemma_phase_keeps_state(t, q),
        Operation::Cnot(c, u) => lemma_cnot_keeps_state(t, c, u),
        Operation::PauliZ(q) => lemma_pauli_z_keeps_state(t, q),
        Operation::PhaseAdjoint(q) => lemma_phase_adjoint_keeps_state(t, q),
        Operation::PauliX(q) => lemma_pauli_x_keeps_state(t, q),
        Operation::PauliY(q) => lemma_pauli_y_keeps_state(t, q),
        Operation::Measure(q, coin) => lemma_measured_keeps_state(t, q, coin),
        Operation::Canonicalize => lemma_canonical_keeps_state(t),
    }
}

/// After any sequence of gates, measurements and canonicalizations a
/// stabilizer state is a stabilizer state: the stabilizers have real
/// coefficients and commute, and each destabilizer anticommutes with its
/// own stabilizer and with no other. Complete generators stay complete.
pub proof fn lemma_run_keeps_state(t: Tableau, ops: Seq<Operation>)
    requires
        t.is_stabilizer_state(),
        t.admits_all(ops),
    ensures
        t.run(ops).is_stabilizer_state(),
        t.complete() ==> t.run(ops).complete(),
        t.run(ops).n == t.n,
    decreases ops.len(),
{
    if ops.len() > 0 {
        assert(t.admits_all(ops.drop_last())) by {
            assert forall|i: int| 0 <= i < ops.drop_last().len() implies t.admits(
                #[trigger] ops.drop_last()[i],
            ) by {
                assert(ops.drop_last()[i] == ops[i]);
            }
        }
        lemma_run_keeps_state(t, ops.drop_last());
        let u = t.run(ops.drop_last());
        assert(t.admits(ops.last()));
        assert(u.admits(ops.last()));
        lemma_apply_keeps_state(u, ops.last());
    }
}

/// Every tableau reached from `|0...0>` is a stabilizer state with
/// complete generators.
pub proof fn lemma_reachable_is_stabilizer_state(n: nat, ops: Seq<Operation>)
    requires
        n >= 1,
        Tableau::ground(n).admits_all(ops),
    ensures
        Tableau::ground(n).run(ops).is_stabilizer_state(),
        Tableau::ground(n).run(ops).is_complete_state(),
{
    lemma_ground_is_stabilizer_state(n);
    lemma_run_keeps_state(Tableau::ground(n), ops);
}

} // verus!
