//! Pauli operators on `n` qubits as mathematical values: a pair of bit
//! strings and a power of `i`.
//!
//! Everything in this module is specification or proof; the executable
//! tableau is described in terms of these values.

use vstd::prelude::*;

verus! {

/// The label of a Pauli operator on one qubit.
pub enum Pauli {
    I,
    X,
    Y,
    Z,
}

/// The label encoded by an (X bit, Z bit) pair.
pub open spec fn label_of(x: bool, z: bool) -> Pauli {
    if x {
        if z {
            Pauli::Y
        } else {
            Pauli::X
        }
    } else {
        if z {
            Pauli::Z
        } else {
            Pauli::I
        }
    }
}

/// The power of `i` that one qubit contributes when a row labelled
/// `target` is multiplied by a row labelled `control`: the cyclic orders
/// X·Y, Y·Z, Z·X (control first) give `+1`, the reverse orders `-1`, and
/// every pair with an identity or two equal labels gives `0`.
pub open spec fn carry(target: Pauli, control: Pauli) -> int {
    match (control, target) {
        (Pauli::X, Pauli::Y) => 1,
        (Pauli::Y, Pauli::Z) => 1,
        (Pauli::Z, Pauli::X) => 1,
        (Pauli::X, Pauli::Z) => -1,
        (Pauli::Y, Pauli::X) => -1,
        (Pauli::Z, Pauli::Y) => -1,
        _ => 0,
    }
}

/// A Pauli operator on several qubits with its coefficient `i^phase`.
///
/// `x[q]` and `z[q]` are the X and Z bits of qubit `q`.
#[verifier::ext_equal]
pub struct PauliRow {
    pub x: Seq<bool>,
    pub z: Seq<bool>,
    pub phase: int,
}

impl PauliRow {
    /// A row over exactly `n` qubits with a phase exponent in `0..4`.
    pub open spec fn wf(self, n: nat) -> bool {
        &&& self.x.len() == n
        &&& self.z.len() == n
        &&& 0 <= self.phase < 4
    }

    /// The label of qubit `q`.
    pub open spec fn label(self, q: int) -> Pauli {
        label_of(self.x[q], self.z[q])
    }

    /// The bit in column `col` of a row over `n` qubits: the X bit of qubit
    /// `col` for a column below `n`, the Z bit of qubit `col - n` otherwise.
    pub open spec fn bit(self, col: int) -> bool {
        if col < self.x.len() {
            self.x[col]
        } else {
            self.z[col - self.x.len()]
        }
    }

    /// The row has no X or Z bit: it is the identity up to its coefficient.
    pub open spec fn is_scalar(self) -> bool {
        forall|c: int| 0 <= c < self.x.len() ==> !self.x[c] && !self.z[c]
    }

    /// The coefficient is `+1` or `-1`.
    pub open spec fn is_hermitian(self) -> bool {
        self.phase % 2 == 0
    }

    /// The same operator with the opposite sign.
    pub open spec fn negated(self) -> PauliRow {
        PauliRow { x: self.x, z: self.z, phase: (self.phase + 2) % 4 }
    }

    /// The same operator, negated exactly when `flip` holds.
    pub open spec fn negated_if(self, flip: bool) -> PauliRow {
        if flip {
            self.negated()
        } else {
            self
        }
    }

    /// The same row with the X bit of qubit `q` replaced.
    pub open spec fn with_x(self, q: int, bit: bool) -> PauliRow {
        PauliRow { x: self.x.update(q, bit), z: self.z, phase: self.phase }
    }

    /// The same row with the Z bit of qubit `q` replaced.
    pub open spec fn with_z(self, q: int, bit: bool) -> PauliRow {
        PauliRow { x: self.x, z: self.z.update(q, bit), phase: self.phase }
    }

    /// The same bits with another phase exponent.
    pub open spec fn with_phase(self, phase: int) -> PauliRow {
        PauliRow { x: self.x, z: self.z, phase }
    }

    /// The identity on `n` qubits with coefficient `+1`.
    pub open spec fn identity(n: nat) -> PauliRow {
        PauliRow { x: Seq::new(n, |q: int| false), z: Seq::new(n, |q: int| false), phase: 0 }
    }

    /// `X` on qubit `q` and the identity elsewhere, with coefficient `+1`.
    pub open spec fn single_x(n: nat, q: int) -> PauliRow {
        PauliRow { x: Seq::new(n, |j: int| j == q), z: Seq::new(n, |j: int| false), phase: 0 }
    }

    /// `Z` on qubit `q` and the identity elsewhere, with coefficient
    /// `i^phase`.
    pub open spec fn single_z(n: nat, q: int, phase: int) -> PauliRow {
        PauliRow { x: Seq::new(n, |j: int| false), z: Seq::new(n, |j: int| j == q), phase }
    }
}

/// The two rows anticommute on qubit `q`: both carry a label there, and the
/// labels differ.
pub open spec fn anticommute_at(a: PauliRow, b: PauliRow, q: int) -> bool {
    (a.x[q] && b.z[q]) != (a.z[q] && b.x[q])
}

/// The parity of the number of qubits below `k` on which the rows
/// anticommute.
pub open spec fn anticommutes_upto(a: PauliRow, b: PauliRow, k: nat) -> bool
    decreases k,
{
    if k == 0 {
        false
    } else {
        anticommutes_upto(a, b, (k - 1) as nat) != anticommute_at(a, b, k - 1)
    }
}

/// The symplectic product: the operators anticommute exactly when they
/// anticommute on an odd number of qubits.
pub open spec fn anticommutes(a: PauliRow, b: PauliRow) -> bool {
    anticommutes_upto(a, b, a.x.len())
}

/// The sum of the per-qubit carries of `target · control` over the qubits
/// below `k`.
pub open spec fn exponent_upto(target: PauliRow, control: PauliRow, k: nat) -> int
    decreases k,
{
    if k == 0 {
        0
    } else {
        exponent_upto(target, control, (k - 1) as nat) + carry(
            target.label(k - 1),
            control.label(k - 1),
        )
    }
}

/// The row that replaces `target` when it is multiplied by `control`: the
/// bits are added modulo 2, and the phase is the sum of both phases and of
/// all carries, reduced into `0..4`.
pub open spec fn product(target: PauliRow, control: PauliRow) -> PauliRow {
    PauliRow {
        x: Seq::new(target.x.len(), |q: int| target.x[q] != control.x[q]),
        z: Seq::new(target.z.len(), |q: int| target.z[q] != control.z[q]),
        phase: (target.phase + control.phase + exponent_upto(target, control, target.x.len()))
            % 4,
    }
}

/// The first index in `lo..hi` of a row whose bit in column `col` is set,
/// or `hi` when there is none.
pub open spec fn first_set(rows: Seq<PauliRow>, col: int, lo: int, hi: int) -> int
    decreases hi - lo,
{
    if lo >= hi {
        hi
    } else if rows[lo].bit(col) {
        lo
    } else {
        first_set(rows, col, lo + 1, hi)
    }
}

/// `first_set` returns the least index in range with the bit set.
pub proof fn lemma_first_set(rows: Seq<PauliRow>, col: int, lo: int, hi: int)
    requires
        lo <= hi,
    ensures
        lo <= first_set(rows, col, lo, hi) <= hi,
        first_set(rows, col, lo, hi) < hi ==> rows[first_set(rows, col, lo, hi)].bit(col),
        forall|j: int| lo <= j < first_set(rows, col, lo, hi) ==> !(#[trigger] rows[j]).bit(col),
    decreases hi - lo,
{
    if lo < hi && !rows[lo].bit(col) {
        lemma_first_set(rows, col, lo + 1, hi);
    }
}

/// Anticommutation is symmetric.
pub proof fn lemma_anticommutes_symmetric(a: PauliRow, b: PauliRow, k: nat)
    ensures
        anticommutes_upto(a, b, k) == anticommutes_upto(b, a, k),
    decreases k,
{
    if k > 0 {
        lemma_anticommutes_symmetric(a, b, (k - 1) as nat);
    }
}

/// Every operator commutes with itself.
pub proof fn lemma_commutes_with_self(a: PauliRow, k: nat)
    ensures
        !anticommutes_upto(a, a, k),
    decreases k,
{
    if k > 0 {
        lemma_commutes_with_self(a, (k - 1) as nat);
    }
}

/// Rows that agree qubit by qubit in whether they anticommute agree in
/// their symplectic product.
pub proof fn lemma_anticommutes_pointwise(
    a: PauliRow,
    b: PauliRow,
    c: PauliRow,
    d: PauliRow,
    k: nat,
)
    requires
        forall|q: int| 0 <= q < k ==> anticommute_at(a, b, q) == anticommute_at(c, d, q),
    ensures
        anticommutes_upto(a, b, k) == anticommutes_upto(c, d, k),
    decreases k,
{
    if k > 0 {
        lemma_anticommutes_pointwise(a, b, c, d, (k - 1) as nat);
    }
}

/// Rows whose per-qubit anticommutation agrees everywhere except on the
/// two distinct qubits `p` and `q`, where it agrees in total parity, agree
/// in their symplectic product.
pub proof fn lemma_anticommutes_pairwise(
    a: PauliRow,
    b: PauliRow,
    c: PauliRow,
    d: PauliRow,
    p: int,
    q: int,
    k: nat,
)
    requires
        0 <= p < k,
        0 <= q < k,
        p != q,
        forall|j: int|
            0 <= j < k && j != p && j != q ==> anticommute_at(a, b, j) == anticommute_at(c, d, j),
        (anticommute_at(a, b, p) != anticommute_at(a, b, q)) == (anticommute_at(c, d, p)
            != anticommute_at(c, d, q)),
    ensures
        anticommutes_upto(a, b, k) == anticommutes_upto(c, d, k),
{
    lemma_anticommutes_pairwise_upto(a, b, c, d, p, q, k);
}

proof fn lemma_anticommutes_pairwise_upto(
    a: PauliRow,
    b: PauliRow,
    c: PauliRow,
    d: PauliRow,
    p: int,
    q: int,
    k: nat,
)
    requires
        0 <= p,
        0 <= q,
        p != q,
        forall|j: int|
            0 <= j < k && j != p && j != q ==> anticommute_at(a, b, j) == anticommute_at(c, d, j),
    ensures
        (anticommutes_upto(a, b, k) == anticommutes_upto(c, d, k)) == ((p < k && (anticommute_at(
            a,
            b,
            p,
        ) != anticommute_at(c, d, p))) == (q < k && (anticommute_at(a, b, q) != anticommute_at(
            c,
            d,
            q,
        )))),
    decreases k,
{
    if k > 0 {
        lemma_anticommutes_pairwise_upto(a, b, c, d, p, q, (k - 1) as nat);
    }
}

/// The symplectic product is additive in its first argument: a product
/// anticommutes with `c` exactly when one factor does and the other does
/// not.
pub proof fn lemma_anticommutes_product(a: PauliRow, b: PauliRow, c: PauliRow, k: nat)
    requires
        k <= a.x.len(),
        a.z.len() == a.x.len(),
    ensures
        anticommutes_upto(product(a, b), c, k) == (anticommutes_upto(a, c, k) != anticommutes_upto(
            b,
            c,
            k,
        )),
    decreases k,
{
    if k > 0 {
        lemma_anticommutes_product(a, b, c, (k - 1) as nat);
    }
}

/// The symplectic product of two rows, each possibly multiplied by a
/// third row `s`, in terms of the products of the three.
pub proof fn lemma_anticommutes_mixed(
    a: PauliRow,
    with_a: bool,
    b: PauliRow,
    with_b: bool,
    s: PauliRow,
    n: nat,
)
    requires
        a.wf(n),
        b.wf(n),
        s.wf(n),
    ensures
        anticommutes(
            if with_a {
                product(a, s)
            } else {
                a
            },
            if with_b {
                product(b, s)
            } else {
                b
            },
        ) == ((anticommutes(a, b) != (with_a && anticommutes(s, b))) != (with_b && anticommutes(
            a,
            s,
        ))),
{
    let a1 = if with_a {
        product(a, s)
    } else {
        a
    };
    let b1 = if with_b {
        product(b, s)
    } else {
        b
    };
    // a1 against b1, opened on the left
    if with_a {
        lemma_anticommutes_product(a, s, b1, n);
    }
    // a against b1 and s against b1, opened on the right
    lemma_anticommutes_symmetric(a, b1, n);
    lemma_anticommutes_symmetric(s, b1, n);
    if with_b {
        lemma_anticommutes_product(b, s, a, n);
        lemma_anticommutes_product(b, s, s, n);
    }
    lemma_anticommutes_symmetric(b, a, n);
    lemma_anticommutes_symmetric(b, s, n);
    lemma_anticommutes_symmetric(s, a, n);
    lemma_commutes_with_self(s, n);
}

/// The symplectic product of two products, in terms of the products of the
/// factors.
pub proof fn lemma_anticommutes_products(a: PauliRow, b: PauliRow, c: PauliRow, d: PauliRow, n: nat)
    requires
        a.wf(n),
        b.wf(n),
        c.wf(n),
        d.wf(n),
    ensures
        anticommutes(product(a, b), product(c, d)) == ((anticommutes(a, c) != anticommutes(a, d))
            != (anticommutes(b, c) != anticommutes(b, d))),
        anticommutes(product(a, b), c) == (anticommutes(a, c) != anticommutes(b, c)),
        anticommutes(c, product(a, b)) == (anticommutes(c, a) != anticommutes(c, b)),
{
    lemma_anticommutes_product(a, b, product(c, d), n);
    lemma_anticommutes_product(a, b, c, n);
    lemma_anticommutes_symmetric(a, product(c, d), n);
    lemma_anticommutes_symmetric(b, product(c, d), n);
    lemma_anticommutes_product(c, d, a, n);
    lemma_anticommutes_product(c, d, b, n);
    lemma_anticommutes_symmetric(c, a, n);
    lemma_anticommutes_symmetric(d, a, n);
    lemma_anticommutes_symmetric(c, b, n);
    lemma_anticommutes_symmetric(d, b, n);
    lemma_anticommutes_symmetric(c, product(a, b), n);
}

/// A row anticommutes with `Z` on qubit `q` exactly when its X bit on `q`
/// is set.
pub proof fn lemma_anticommutes_single_z(r: PauliRow, n: nat, q: int, phase: int)
    requires
        r.x.len() == n,
        0 <= q < n,
    ensures
        anticommutes(r, PauliRow::single_z(n, q, phase)) == r.x[q],
{
    lemma_anticommutes_single_z_upto(r, n, q, phase, n);
}

proof fn lemma_anticommutes_single_z_upto(r: PauliRow, n: nat, q: int, phase: int, k: nat)
    requires
        0 <= q < n,
        k <= n,
    ensures
        anticommutes_upto(r, PauliRow::single_z(n, q, phase), k) == (q < k && r.x[q]),
    decreases k,
{
    if k > 0 {
        lemma_anticommutes_single_z_upto(r, n, q, phase, (k - 1) as nat);
    }
}

/// A row anticommutes with `X` on qubit `q` exactly when its Z bit on `q`
/// is set.
pub proof fn lemma_anticommutes_single_x(r: PauliRow, n: nat, q: int)
    requires
        r.x.len() == n,
        0 <= q < n,
    ensures
        anticommutes(r, PauliRow::single_x(n, q)) == r.z[q],
{
    lemma_anticommutes_single_x_upto(r, n, q, n);
}

proof fn lemma_anticommutes_single_x_upto(r: PauliRow, n: nat, q: int, k: nat)
    requires
        0 <= q < n,
        k <= n,
    ensures
        anticommutes_upto(r, PauliRow::single_x(n, q), k) == (q < k && r.z[q]),
    decreases k,
{
    if k > 0 {
        lemma_anticommutes_single_x_upto(r, n, q, (k - 1) as nat);
    }
}

/// A row without bits commutes with every row.
pub proof fn lemma_scalar_commutes(a: PauliRow, b: PauliRow, k: nat)
    requires
        k <= a.x.len(),
        a.is_scalar() || (b.is_scalar() && k <= b.x.len()),
    ensures
        !anticommutes_upto(a, b, k),
    decreases k,
{
    if k > 0 {
        lemma_scalar_commutes(a, b, (k - 1) as nat);
    }
}

/// The carries of a product add up to an odd number exactly when the two
/// rows anticommute.
pub proof fn lemma_exponent_parity(target: PauliRow, control: PauliRow, k: nat)
    ensures
        (exponent_upto(target, control, k) % 2 != 0) == anticommutes_upto(target, control, k),
        -(k as int) <= exponent_upto(target, control, k) <= k,
    decreases k,
{
    if k > 0 {
        lemma_exponent_parity(target, control, (k - 1) as nat);
    }
}

/// The product of two commuting operators with real coefficients has a
/// real coefficient.
pub proof fn lemma_product_hermitian(target: PauliRow, control: PauliRow)
    requires
        target.is_hermitian(),
        control.is_hermitian(),
        !anticommutes(target, control),
    ensures
        product(target, control).is_hermitian(),
{
    lemma_exponent_parity(target, control, target.x.len());
}

} // verus!
