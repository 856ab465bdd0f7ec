//! Enumeration of the basis states of a canonical tableau and their
//! rendering as text.

use crate::pauli::{product, Pauli, PauliRow};
use crate::canonical::lemma_canonical_keeps_state;
use crate::simulator::{CliffordSimulator, PHASE_QUANT};
use crate::tableau::Tableau;
use vstd::arithmetic::power2::pow2;
use vstd::prelude::*;
use vstd::string::StringExecFns;

verus! {

/// The text of a coefficient `i^e`: `" +"`, `"+i"`, `" -"`, `"-i"`.
pub open spec fn phase_label(e: int) -> Seq<char> {
    if e == 0 {
        seq![' ', '+']
    } else if e == 1 {
        seq!['+', 'i']
    } else if e == 2 {
        seq![' ', '-']
    } else {
        seq!['-', 'i']
    }
}

/// The number of qubits below `k` that `row` labels `Y`.
pub open spec fn count_y(row: PauliRow, k: nat) -> nat
    decreases k,
{
    if k == 0 {
        0
    } else {
        count_y(row, (k - 1) as nat) + if row.label(k - 1) == Pauli::Y {
            1nat
        } else {
            0nat
        }
    }
}

/// A bit string as text, one `'0'` or `'1'` per bit.
pub open spec fn bit_text(bits: Seq<bool>) -> Seq<char> {
    Seq::new(
        bits.len(),
        |j: int|
            if bits[j] {
                '1'
            } else {
                '0'
            },
    )
}

/// The ket that `row` stands for: the coefficient, with one factor `i`
/// for every qubit labelled `Y`, and the X bits between `|` and `>`.
pub open spec fn ket(row: PauliRow) -> Seq<char> {
    phase_label((row.phase + count_y(row, row.x.len())) % 4) + seq!['|'] + bit_text(row.x)
        + seq!['>']
}

/// The decimal digit `d` as a character.
pub open spec fn digit(d: int) -> char {
    seq!['0', '1', '2', '3', '4', '5', '6', '7', '8', '9'][d]
}

/// The decimal representation of `v`, without leading zeros.
pub open spec fn decimal(v: nat) -> Seq<char>
    decreases v,
{
    if v < 10 {
        seq![digit(v as int)]
    } else {
        decimal(v / 10).push(digit((v % 10) as int))
    }
}

/// The least index from `j` on at which `bits` is set, or `fallback` when
/// there is none.
pub open spec fn lowest_set_from(bits: Seq<bool>, j: int, fallback: int) -> int
    decreases bits.len() - j,
{
    if j >= bits.len() {
        fallback
    } else if bits[j] {
        j
    } else {
        lowest_set_from(bits, j + 1, fallback)
    }
}

/// `lowest_set_from` returns the least index from `j` on at which the
/// string is set, whatever the fallback, and the fallback when there is
/// none.
pub proof fn lemma_lowest_set_from(bits: Seq<bool>, j: int, fallback: int)
    requires
        0 <= j <= bits.len(),
    ensures
        lowest_set_from(bits, j, fallback) == fallback || (j <= lowest_set_from(bits, j, fallback)
            < bits.len() && bits[lowest_set_from(bits, j, fallback)]),
        forall|c: int|
            j <= c < bits.len() && (c < lowest_set_from(bits, j, fallback) || !(j
                <= lowest_set_from(bits, j, fallback) < bits.len())) ==> !bits[c],
        forall|c: int, other: int|
            j <= c < bits.len() && bits[c] ==> lowest_set_from(bits, j, other) == lowest_set_from(
                bits,
                j,
                fallback,
            ),
    decreases bits.len() - j,
{
    if j < bits.len() && !bits[j] {
        lemma_lowest_set_from(bits, j + 1, fallback);
        assert forall|c: int, other: int| j <= c < bits.len() && bits[c] implies lowest_set_from(
            bits,
            j,
            other,
        ) == lowest_set_from(bits, j, fallback) by {
            lemma_lowest_set_from(bits, j + 1, other);
        }
    }
}

/// The number of indices from `j` on at which both `a` and `b` are set.
pub open spec fn overlap_from(a: Seq<bool>, b: Seq<bool>, j: int) -> nat
    decreases a.len() - j,
{
    if j >= a.len() {
        0
    } else {
        overlap_from(a, b, j + 1) + if a[j] && b[j] {
            1nat
        } else {
            0nat
        }
    }
}

/// The Gray code of `i`.
pub open spec fn gray(i: u64) -> u64 {
    i ^ (i >> 1)
}

/// The bits in which the Gray codes of `i` and `i + 1` differ.
pub open spec fn gray_step(i: u64) -> u64 {
    gray(i) ^ gray((i + 1) as u64)
}

/// The text returned in place of an enumeration of `2^64` or more basis
/// states.
pub open spec fn declined() -> Seq<char> {
    "muitos estados para printar."@
}

/// The text that follows the number of basis states.
pub open spec fn caption() -> Seq<char> {
    " possible states\n"@
}

impl Tableau {
    /// The X bits of a basis state that satisfies the stabilizer rows
    /// `row .. 2n`, with the last pivot qubit seen, after a sweep over those
    /// rows from the last one down.
    ///
    /// Each row fixes the parity of the bits on the qubits where it has a Z
    /// bit: where the bits chosen so far give the wrong parity for the
    /// row's sign, the bit of the row's lowest such qubit is set. A row
    /// without Z bits keeps the pivot qubit of the row swept before it.
    pub open spec fn seed_sweep(self, row: int) -> (Seq<bool>, int)
        decreases 2 * self.n - row,
    {
        if row >= 2 * self.n {
            (Seq::new(self.n, |j: int| false), 0)
        } else {
            let (x, min) = self.seed_sweep(row + 1);
            let r = self.rows[row];
            let low = lowest_set_from(r.z, 0, min);
            let f = (r.phase + 2 * overlap_from(r.z, x, 0)) % 4;
            (
                if f == 2 {
                    x.update(low, true)
                } else {
                    x
                },
                low,
            )
        }
    }

    /// The first basis state of the enumeration for rank `k`, as a row
    /// without Z bits and with phase zero.
    pub open spec fn seed_row(self, k: int) -> PauliRow {
        PauliRow {
            x: self.seed_sweep(self.n + k).0,
            z: Seq::new(self.n, |j: int| false),
            phase: 0,
        }
    }

    /// `row` multiplied by every stabilizer `j < count` whose bit is set in
    /// `mask`, in increasing order of `j`.
    pub open spec fn flipped(self, row: PauliRow, mask: u64, count: nat) -> PauliRow
        decreases count,
    {
        if count == 0 {
            row
        } else {
            let r = self.flipped(row, mask, (count - 1) as nat);
            if mask & (1u64 << ((count - 1) as u64)) != 0 {
                product(r, self.stabilizer(count - 1))
            } else {
                r
            }
        }
    }

    /// The row of the basis state with index `i` in the enumeration for
    /// rank `k`: the seed for `i == 0`, and otherwise its predecessor
    /// multiplied by the stabilizer that the Gray code flips.
    pub open spec fn ket_row(self, k: nat, i: nat) -> PauliRow
        decreases i,
    {
        if i == 0 {
            self.seed_row(k as int)
        } else {
            self.flipped(self.ket_row(k, (i - 1) as nat), gray_step((i - 1) as u64), k)
        }
    }

    /// The kets of the first `count` basis states of the enumeration for
    /// rank `k`, one after the other.
    pub open spec fn kets(self, k: nat, count: nat) -> Seq<char>
        decreases count,
    {
        if count == 0 {
            Seq::empty()
        } else {
            self.kets(k, (count - 1) as nat) + ket(self.ket_row(k, (count - 1) as nat))
        }
    }

    /// The scratch row after the state has been rendered: the row of the
    /// last basis state, or what the canonical form left where nothing is
    /// enumerated.
    pub open spec fn render_scratch(self, scratch: PauliRow) -> PauliRow {
        let k = self.rank();
        if k >= 64 {
            self.canonical_scratch(scratch)
        } else {
            self.canonical().ket_row(k as nat, (pow2(k as nat) - 1) as nat)
        }
    }

    /// The text that describes the state: the number of basis states in
    /// the superposition, a caption, and the ket of each basis state in
    /// Gray-code order; or, for `2^64` basis states or more, a fixed text.
    pub open spec fn render(self) -> Seq<char> {
        let k = self.rank();
        if k >= 64 {
            declined()
        } else {
            decimal(pow2(k as nat)) + caption() + self.canonical().kets(k as nat, pow2(k as nat))
        }
    }
}

/// Returns the text of the coefficient `i^e`.
fn phase_text(e: usize) -> (text: &'static str)
    requires
        e < 4,
    ensures
        text@ == phase_label(e as int),
{
    proof {
        reveal_strlit(" +");
        reveal_strlit("+i");
        reveal_strlit(" -");
        reveal_strlit("-i");
    }
    let text = if e == 0 {
        " +"
    } else if e == 1 {
        "+i"
    } else if e == 2 {
        " -"
    } else {
        "-i"
    };
    assert(text@ =~= phase_label(e as int));
    text
}

/// Returns the decimal digit `d` as text.
fn digit_text(d: u64) -> (text: &'static str)
    requires
        d < 10,
    ensures
        text@ == seq![digit(d as int)],
{
    proof {
        reveal_strlit("0");
        reveal_strlit("1");
        reveal_strlit("2");
        reveal_strlit("3");
        reveal_strlit("4");
        reveal_strlit("5");
        reveal_strlit("6");
        reveal_strlit("7");
        reveal_strlit("8");
        reveal_strlit("9");
    }
    let text = if d == 0 {
        "0"
    } else if d == 1 {
        "1"
    } else if d == 2 {
        "2"
    } else if d == 3 {
        "3"
    } else if d == 4 {
        "4"
    } else if d == 5 {
        "5"
    } else if d == 6 {
        "6"
    } else if d == 7 {
        "7"
    } else if d == 8 {
        "8"
    } else {
        "9"
    };
    assert(text@ =~= seq![digit(d as int)]);
    text
}

/// Appends the decimal representation of `v` to `out`.
fn push_decimal(out: &mut String, v: u64)
    ensures
        final(out)@ == old(out)@ + decimal(v as nat),
    decreases v,
{
    if v >= 10 {
        push_decimal(out, v / 10);
    }
    out.append(digit_text(v % 10));
    assert(out@ =~= old(out)@ + decimal(v as nat));
}

impl CliffordSimulator {
    /// Renders the scratch row as a ket.
    fn str_base_state(&self) -> (text: String)
        requires
            self.wf(),
        ensures
            text@ == ket(self.scratch()),
    {
        let ghost n = self.qubits();
        let ghost row = self.scratch();
        let size = self.get_size();
        let buffer_index = self.buffer_index();
        let mut e = self.phase_of(buffer_index);
        let mut result = String::new();

        for i in 0..size
            invariant
                size == n,
                buffer_index == 2 * n,
                self.wf(),
                self.qubits() == n,
                row == self.scratch(),
                e == (row.phase + count_y(row, i as nat)) % 4,
        {
            if self.is_y(buffer_index, i) {
                e = (e + 1) % 4;
            }
        }

        result.append(phase_text(e));
        proof {
            reveal_strlit("|");
            reveal_strlit("0");
            reveal_strlit("1");
            reveal_strlit(">");
        }
        result.append("|");
        let ghost head = result@;

        for i in 0..size
            invariant
                size == n,
                buffer_index == 2 * n,
                self.wf(),
                self.qubits() == n,
                row == self.scratch(),
                row.x.len() == n,
                "0"@ == seq!['0'],
                "1"@ == seq!['1'],
                result@ == head + bit_text(row.x.subrange(0, i as int)),
        {
            let bit = self.x_bit(buffer_index, i);
            result.append(
                if bit {
                    "1"
                } else {
                    "0"
                },
            );
            assert(result@ =~= head + bit_text(row.x.subrange(0, i + 1)));
        }
        assert(row.x.subrange(0, n as int) =~= row.x);

        result.append(">");
        assert(result@ =~= ket(row));
        result
    }

    /// Writes the first basis state of the enumeration for rank `gauss`
    /// into the scratch row.
    fn seed(&mut self, gauss: usize)
        requires
            old(self).wf(),
            gauss <= old(self).qubits(),
        ensures
            final(self).wf(),
            final(self).qubits() == old(self).qubits(),
            final(self)@ == old(self)@,
            final(self).scratch() == old(self)@.seed_row(gauss as int),
    {
        let ghost t = self@;
        let ghost n = self.qubits();
        let ghost zeros = Seq::new(n, |j: int| false);
        let mut min: usize = 0;
        let size = self.get_size();
        let buffer_index = self.buffer_index();
        self.clean_buffer();
        let ghost before = self.rows();
        assert(before[2 * n as int] =~~= PauliRow {
            x: t.seed_sweep(2 * n as int).0,
            z: zeros,
            phase: 0,
        });

        let mut i = buffer_index;
        while i > size + gauss
            invariant
                size == n,
                buffer_index == 2 * n,
                gauss <= n,
                n + gauss <= i <= 2 * n,
                self.wf(),
                self.qubits() == n,
                before.len() == 2 * n + 1,
                t.n == n,
                t.wf(),
                t.rows == before.subrange(0, 2 * n as int),
                zeros == Seq::new(n, |j: int| false),
                min < n,
                min == t.seed_sweep(i as int).1,
                t.seed_sweep(i as int).0.len() == n,
                self.rows() == before.update(
                    2 * n as int,
                    PauliRow { x: t.seed_sweep(i as int).0, z: zeros, phase: 0 },
                ),
            decreases i,
        {
            i -= 1;
            let ghost x = t.seed_sweep(i + 1).0;
            let ghost r = t.rows[i as int];
            assert(r == self.rows()[i as int]);
            assert(r.wf(n));
            let ghost fallback = min;
            let mut f = self.phase_of(i);

            let mut j = size;
            while j > 0
                invariant
                    size == n,
                    buffer_index == 2 * n,
                    j <= n,
                    i < 2 * n,
                    self.wf(),
                    self.qubits() == n,
                    r == self.rows()[i as int],
                    r.wf(n),
                    x == self.rows()[2 * n as int].x,
                    x.len() == n,
                    fallback < n,
                    min < n,
                    min == lowest_set_from(r.z, j as int, fallback as int),
                    f == (r.phase + 2 * overlap_from(r.z, x, j as int)) % 4,
                decreases j,
            {
                j -= 1;
                if self.z_bit(i, j) {
                    min = j;
                    if self.x_bit(buffer_index, j) {
                        f = (f + (PHASE_QUANT - 2)) % PHASE_QUANT;
                    }
                }
            }

            if f == 2 {
                self.set_x_bit(buffer_index, min, true);
            }
            assert(self.rows() =~~= before.update(
                2 * n as int,
                PauliRow { x: t.seed_sweep(i as int).0, z: zeros, phase: 0 },
            ));
        }
        assert(self@ =~= t);
    }

    /// Brings the tableau into canonical form and renders the state it
    /// describes: the number of basis states in the superposition, and the
    /// ket of each, in Gray-code order.
    ///
    /// A state with `2^64` basis states or more is not enumerated; a fixed
    /// text is returned in its place.
    pub fn str_ket(&mut self) -> (text: String)
        requires
            old(self).wf(),
        ensures
            final(self).wf(),
            final(self).qubits() == old(self).qubits(),
            final(self)@ == old(self)@.canonical(),
            final(self).scratch() == old(self)@.render_scratch(old(self).scratch()),
            text@ == old(self)@.render(),
            old(self)@.is_stabilizer_state() ==> final(self)@.is_stabilizer_state(),
            old(self)@.is_complete_state() ==> final(self)@.is_complete_state(),
    {
        let ghost n = self.qubits();
        let size = self.get_size();
        let buffer_index = self.buffer_index();
        let gauss = self.gaussian();
        let ghost t = self@;
        let ghost k = gauss as nat;
        proof {
            lemma_canonical_keeps_state(old(self)@);
        }

        if gauss >= 64 {
            return String::from_str("muitos estados para printar.");
        }
        let states_quant = 1u64 << (gauss as u64);
        proof {
            vstd::bits::lemma_u64_pow2_no_overflow(k);
            vstd::bits::lemma_u64_shl_is_mul(1, gauss as u64);
        }
        assert(states_quant == pow2(k));
        let mut result = String::new();
        push_decimal(&mut result, states_quant);
        result.append(" possible states\n");
        let ghost head = result@;

        self.seed(gauss);
        let first = self.str_base_state();
        result.append(first.as_str());
        assert(result@ =~= head + t.kets(k, 1)) by {
            assert(t.kets(k, 0) =~= Seq::<char>::empty());
        }

        for i in 0..(states_quant - 1)
            invariant
                size == n,
                buffer_index == 2 * n,
                gauss == k,
                k <= n,
                k < 64,
                states_quant == pow2(k),
                self.wf(),
                self.qubits() == n,
                self@ == t,
                self.scratch() == t.ket_row(k, i as nat),
                result@ == head + t.kets(k, (i + 1) as nat),
        {
            let i2 = (i ^ (i >> 1)) ^ ((i + 1) ^ ((i + 1) >> 1));
            assert(i2 == gray_step(i));
            let ghost start = self.scratch();
            for j in 0..gauss
                invariant
                    size == n,
                    buffer_index == 2 * n,
                    gauss == k,
                    k <= n,
                    k < 64,
                    self.wf(),
                    self.qubits() == n,
                    self@ == t,
                    self.scratch() == t.flipped(start, i2, j as nat),
            {
                if i2 & (1u64 << (j as u64)) != 0 {
                    self.mult_row(buffer_index, size + j);
                    assert(self@ =~= t);
                }
            }
            let next = self.str_base_state();
            result.append(next.as_str());
            assert(result@ =~= head + t.kets(k, (i + 2) as nat));
        }

        result
    }
}

} // verus!
