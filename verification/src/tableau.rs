//! The logical content of a stabilizer tableau as a mathematical value.

use crate::pauli::{anticommutes, PauliRow};
use vstd::prelude::*;

verus! {

/// The generators that describe a stabilizer state of `n` qubits.
///
/// `rows` holds `2n` operators: the destabilizers in `0..n`, the
/// stabilizers in `n..2n`.
#[verifier::ext_equal]
pub struct Tableau {
    pub n: nat,
    pub rows: Seq<PauliRow>,
}

impl Tableau {
    /// At least one qubit, `2n` rows, each a well-formed row over `n`
    /// qubits.
    pub open spec fn wf(self) -> bool {
        &&& self.n >= 1
        &&& self.rows.len() == 2 * self.n
        &&& forall|r: int| 0 <= r < self.rows.len() ==> (#[trigger] self.rows[r]).wf(self.n)
    }

    /// The destabilizer generator with index `i`.
    pub open spec fn destabilizer(self, i: int) -> PauliRow {
        self.rows[i]
    }

    /// The stabilizer generator with index `i`.
    pub open spec fn stabilizer(self, i: int) -> PauliRow {
        self.rows[self.n + i]
    }

    /// The tableau of the computational basis state `|0...0>`:
    /// destabilizer `i` is `X` on qubit `i`, stabilizer `i` is `Z` on
    /// qubit `i`, and every phase is zero.
    pub open spec fn ground(n: nat) -> Tableau {
        Tableau {
            n,
            rows: Seq::new(
                2 * n,
                |r: int|
                    if r < n {
                        PauliRow::single_x(n, r)
                    } else {
                        PauliRow::single_z(n, r - n, 0)
                    },
            ),
        }
    }

    /// Every stabilizer generator has coefficient `+1` or `-1`.
    pub open spec fn stabilizers_hermitian(self) -> bool {
        forall|s: int| self.n <= s < 2 * self.n ==> (#[trigger] self.rows[s]).is_hermitian()
    }

    /// The stabilizer generators commute with one another.
    pub open spec fn stabilizers_commute(self) -> bool {
        forall|s: int, t: int|
            self.n <= s < 2 * self.n && self.n <= t < 2 * self.n ==> !anticommutes(
                self.rows[s],
                self.rows[t],
            )
    }

    /// Each destabilizer anticommutes with the stabilizer of the same
    /// index and commutes with every other stabilizer.
    pub open spec fn paired(self) -> bool {
        forall|d: int, s: int|
            0 <= d < self.n && self.n <= s < 2 * self.n ==> anticommutes(
                self.rows[d],
                self.rows[s],
            ) == (s == d + self.n)
    }

    /// The row commutes with every generator of the tableau.
    pub open spec fn commutes_with_all(self, v: PauliRow) -> bool {
        forall|r: int| 0 <= r < 2 * self.n ==> !anticommutes(v, #[trigger] self.rows[r])
    }

    /// The generators are complete: only the identity, up to its
    /// coefficient, commutes with all of them.
    #[verifier::opaque]
    pub open spec fn complete(self) -> bool {
        forall|v: PauliRow| #[trigger] v.wf(self.n) && self.commutes_with_all(v) ==> v.is_scalar()
    }

    /// The invariant of a tableau that describes a stabilizer state: the
    /// stabilizers generate a commuting group of operators with real
    /// coefficients, and the destabilizers are paired with them.
    pub open spec fn is_stabilizer_state(self) -> bool {
        &&& self.wf()
        &&& self.stabilizers_hermitian()
        &&& self.stabilizers_commute()
        &&& self.paired()
    }

    /// A stabilizer state whose generators are complete. Every tableau
    /// reached from `|0...0>` is one.
    pub open spec fn is_complete_state(self) -> bool {
        &&& self.is_stabilizer_state()
        &&& self.complete()
    }
}

/// The ground tableau satisfies the stabilizer-state invariant, and its
/// generators are complete.
pub proof fn lemma_ground_is_stabilizer_state(n: nat)
    requires
        n >= 1,
    ensures
        Tableau::ground(n).is_stabilizer_state(),
        Tableau::ground(n).is_complete_state(),
{
    let t = Tableau::ground(n);
    assert forall|s: int, u: int| n <= s < 2 * n && n <= u < 2 * n implies !anticommutes(
        t.rows[s],
        t.rows[u],
    ) by {
        crate::pauli::lemma_anticommutes_single_z(t.rows[s], n, u - n, 0);
    }
    assert forall|d: int, s: int| 0 <= d < n && n <= s < 2 * n implies anticommutes(
        t.rows[d],
        t.rows[s],
    ) == (s == d + n) by {
        crate::pauli::lemma_anticommutes_single_z(t.rows[d], n, s - n, 0);
    }
    assert(t.complete()) by {
        reveal(Tableau::complete);
        assert forall|v: PauliRow|
            #[trigger] v.wf(n) && t.commutes_with_all(v) implies v.is_scalar() by {
            assert forall|c: int| 0 <= c < n implies !v.x[c] && !v.z[c] by {
                crate::pauli::lemma_anticommutes_single_z(v, n, c, 0);
                crate::pauli::lemma_anticommutes_single_x(v, n, c);
                assert(!anticommutes(v, t.rows[c]));
                assert(!anticommutes(v, t.rows[n + c]));
            }
        }
    }
}

} // verus!
