//! The group that the stabilizer generators of a stabilizer state
//! generate: its elements commute, have real coefficients, and differ for
//! different choices of generators, so there are `2^n` of them.

use crate::pauli::{
    anticommutes, lemma_anticommutes_pointwise, lemma_anticommutes_product,
    lemma_anticommutes_symmetric, lemma_product_hermitian, lemma_scalar_commutes, product,
    PauliRow,
};
use crate::tableau::Tableau;
use vstd::prelude::*;

verus! {

impl Tableau {
    /// The product of the stabilizers `i < count` that `pick` selects, in
    /// increasing order of `i`.
    pub open spec fn stabilizer_product(self, pick: Seq<bool>, count: nat) -> PauliRow
        decreases count,
    {
        if count == 0 {
            PauliRow::identity(self.n)
        } else {
            let rest = self.stabilizer_product(pick, (count - 1) as nat);
            if pick[count - 1] {
                product(rest, self.stabilizer(count - 1))
            } else {
                rest
            }
        }
    }
}

/// A product of stabilizers of a stabilizer state has a real coefficient,
/// commutes with every stabilizer, and anticommutes with exactly the
/// destabilizers of the stabilizers it is made of.
pub proof fn lemma_group_element(t: Tableau, pick: Seq<bool>, count: nat)
    requires
        t.is_stabilizer_state(),
        count <= t.n,
    ensures
        t.stabilizer_product(pick, count).wf(t.n),
        t.stabilizer_product(pick, count).is_hermitian(),
        forall|s: int|
            t.n <= s < 2 * t.n ==> !anticommutes(
                t.stabilizer_product(pick, count),
                #[trigger] t.rows[s],
            ),
        forall|d: int|
            0 <= d < t.n ==> anticommutes(t.stabilizer_product(pick, count), #[trigger] t.rows[d])
                == (d < count && pick[d]),
    decreases count,
{
    let n = t.n;
    if count == 0 {
        assert forall|r: int| 0 <= r < 2 * n implies !anticommutes(
            PauliRow::identity(n),
            #[trigger] t.rows[r],
        ) by {
            lemma_scalar_commutes(PauliRow::identity(n), t.rows[r], n);
        }
    } else {
        lemma_group_element(t, pick, (count - 1) as nat);
        let rest = t.stabilizer_product(pick, (count - 1) as nat);
        let next = t.rows[n + count - 1];
        assert(next.wf(n) && next.is_hermitian());
        if pick[count - 1] {
            lemma_product_hermitian(rest, next);
            assert forall|s: int| n <= s < 2 * n implies !anticommutes(
                product(rest, next),
                #[trigger] t.rows[s],
            ) by {
                lemma_anticommutes_product(rest, next, t.rows[s], n);
                assert(!anticommutes(next, t.rows[s]));
            }
            assert forall|d: int| 0 <= d < n implies anticommutes(
                product(rest, next),
                #[trigger] t.rows[d],
            ) == (d < count && pick[d]) by {
                lemma_anticommutes_product(rest, next, t.rows[d], n);
                lemma_anticommutes_symmetric(next, t.rows[d], n);
                assert(t.rows[d].wf(n));
                assert(anticommutes(t.rows[d], next) == (n + count - 1 == d + n));
            }
        }
    }
}

/// The group is abelian: any two products of stabilizers of a stabilizer
/// state commute.
pub proof fn lemma_group_is_abelian(t: Tableau, a: Seq<bool>, b: Seq<bool>, count: nat)
    requires
        t.is_stabilizer_state(),
        count <= t.n,
    ensures
        !anticommutes(t.stabilizer_product(a, t.n), t.stabilizer_product(b, count)),
    decreases count,
{
    let n = t.n;
    let left = t.stabilizer_product(a, n);
    lemma_group_element(t, a, n);
    if count == 0 {
        lemma_anticommutes_symmetric(left, PauliRow::identity(n), n);
        lemma_scalar_commutes(PauliRow::identity(n), left, n);
    } else {
        lemma_group_is_abelian(t, a, b, (count - 1) as nat);
        lemma_group_element(t, b, (count - 1) as nat);
        let rest = t.stabilizer_product(b, (count - 1) as nat);
        let next = t.rows[n + count - 1];
        if b[count - 1] {
            lemma_anticommutes_product(rest, next, left, n);
            lemma_anticommutes_symmetric(product(rest, next), left, n);
            lemma_anticommutes_symmetric(rest, left, n);
            lemma_anticommutes_symmetric(next, left, n);
            assert(!anticommutes(left, next));
        }
    }
}

/// The generators are independent: two different choices of stabilizers
/// of a stabilizer state have products with different bits, so the group
/// has one element for each of the `2^n` choices.
pub proof fn lemma_group_elements_differ(t: Tableau, a: Seq<bool>, b: Seq<bool>)
    requires
        t.is_stabilizer_state(),
        a.len() == t.n,
        b.len() == t.n,
        a != b,
    ensures
        t.stabilizer_product(a, t.n).x != t.stabilizer_product(b, t.n).x || t.stabilizer_product(
            a,
            t.n,
        ).z != t.stabilizer_product(b, t.n).z,
{
    let n = t.n;
    let left = t.stabilizer_product(a, n);
    let right = t.stabilizer_product(b, n);
    lemma_group_element(t, a, n);
    lemma_group_element(t, b, n);
    assert(!(a =~= b));
    let d = choose|d: int| 0 <= d < n && a[d] != b[d];
    assert(anticommutes(left, t.rows[d]) != anticommutes(right, t.rows[d]));
    if left.x == right.x && left.z == right.z {
        lemma_anticommutes_pointwise(left, t.rows[d], right, t.rows[d], n);
    }
}

} // verus!
