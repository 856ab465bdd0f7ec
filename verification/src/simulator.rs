//! The executable tableau: storage, the mapping from qubits and generator
//! indices to rows and columns, and the row operations that every gate and
//! measurement is built from.

use crate::pauli::{exponent_upto, first_set, product, Pauli, PauliRow};
use crate::tableau::{lemma_ground_is_stabilizer_state, Tableau};
use vstd::prelude::*;

verus! {

/// Number of distinct phase exponents: a generator's coefficient is
/// `i^phase` with `0 <= phase < PHASE_QUANT`.
pub const PHASE_QUANT: usize = 4;

/// A stabilizer tableau for a fixed number of qubits.
///
/// The storage holds `2n + 1` rows: `n` destabilizers, `n` stabilizers and
/// one scratch row that carries no meaning between calls. In each row the
/// columns `0..n` are the X bits and the columns `n..2n` the Z bits.
#[derive(Clone, Debug, PartialEq, Eq)]
pub struct CliffordSimulator {
    n: usize,
    g: Vec<Vec<bool>>,
    f: Vec<usize>,
}

impl View for CliffordSimulator {
    type V = Tableau;

    /// The logical state: the destabilizer and stabilizer rows, without the
    /// scratch row.
    open spec fn view(&self) -> Tableau {
        Tableau { n: self.qubits(), rows: self.rows().subrange(0, 2 * self.qubits() as int) }
    }
}

impl CliffordSimulator {
    /// The number of qubits.
    pub closed spec fn qubits(&self) -> nat {
        self.n as nat
    }

    /// All stored rows, the scratch row last.
    pub closed spec fn rows(&self) -> Seq<PauliRow> {
        Seq::new(
            self.g.len() as nat,
            |r: int|
                PauliRow {
                    x: self.g[r]@.subrange(0, self.n as int),
                    z: self.g[r]@.subrange(self.n as int, 2 * self.n),
                    phase: self.f[r] as int,
                },
        )
    }

    /// The storage has the shape that `rows` reads.
    pub closed spec fn storage_ok(&self) -> bool {
        &&& self.g.len() == 2 * self.n + 1
        &&& self.f.len() == 2 * self.n + 1
        &&& forall|r: int| 0 <= r < self.g.len() ==> (#[trigger] self.g[r]).len() == 2 * self.n
        &&& forall|r: int| 0 <= r < self.f.len() ==> (#[trigger] self.f[r]) < PHASE_QUANT
    }

    /// Well-formedness: at least one qubit, `2n + 1` rows over `n` qubits
    /// each, and every phase exponent in `0..4`.
    pub open spec fn wf(&self) -> bool {
        &&& self.storage_ok()
        &&& 1 <= self.qubits()
        &&& 2 * self.qubits() + 1 <= usize::MAX
        &&& self.rows().len() == 2 * self.qubits() + 1
        &&& forall|r: int|
            0 <= r < self.rows().len() ==> (#[trigger] self.rows()[r]).wf(self.qubits())
    }

    /// The scratch row.
    pub open spec fn scratch(&self) -> PauliRow {
        self.rows()[2 * self.qubits() as int]
    }

    /// Creates the tableau of `|0...0>` on `num_qubits` qubits.
    pub fn new(num_qubits: usize) -> (sim: Self)
        requires
            1 <= num_qubits,
            2 * num_qubits + 1 <= usize::MAX,
        ensures
            sim.wf(),
            sim.qubits() == num_qubits,
            sim@ == Tableau::ground(num_qubits as nat),
            sim@.is_complete_state(),
            sim.scratch() == PauliRow::identity(num_qubits as nat),
    {
        let total_size = 2 * num_qubits;
        let mut g: Vec<Vec<bool>> = Vec::new();
        let mut r: usize = 0;
        while r < total_size + 1
            invariant
                total_size == 2 * num_qubits,
                total_size + 1 <= usize::MAX,
                r <= total_size + 1,
                g.len() == r,
                forall|k: int|
                    0 <= k < r ==> (#[trigger] g[k])@ == Seq::new(
                        total_size as nat,
                        |j: int| false,
                    ),
            decreases total_size + 1 - r,
        {
            let row = vec![false; total_size];
            assert(row@ =~= Seq::new(total_size as nat, |j: int| false));
            g.push(row);
            r += 1;
        }
        let f = vec![0usize; total_size + 1];
        let mut sim = Self { n: num_qubits, g, f };
        let ghost n = num_qubits as nat;
        assert(sim.rows() =~~= Seq::new(2 * n + 1, |r: int| PauliRow::identity(n)));
        for i in 0..num_qubits
            invariant
                n == num_qubits,
                sim.wf(),
                sim.qubits() == n,
                sim.rows() == Seq::new(
                    2 * n + 1,
                    |r: int|
                        if r < i {
                            PauliRow::single_x(n, r)
                        } else if n <= r < n + i {
                            PauliRow::single_z(n, r - n, 0)
                        } else {
                            PauliRow::identity(n)
                        },
                ),
        {
            let d = sim.d_index(i);
            let s = sim.s_index(i);
            sim.set_x_bit(d, i, true);
            sim.set_z_bit(s, i, true);
            assert(sim.rows() =~~= Seq::new(
                2 * n + 1,
                |r: int|
                    if r < i + 1 {
                        PauliRow::single_x(n, r)
                    } else if n <= r < n + i + 1 {
                        PauliRow::single_z(n, r - n, 0)
                    } else {
                        PauliRow::identity(n)
                    },
            ));
        }
        assert(sim@ =~~= Tableau::ground(n));
        proof {
            lemma_ground_is_stabilizer_state(n);
        }
        sim
    }

    /// Returns the number of qubits.
    pub fn get_size(&self) -> (n: usize)
        ensures
            n == self.qubits(),
    {
        self.n
    }

    /// Returns the number of logical rows, `2n`.
    pub(crate) fn total_size(&self) -> (t: usize)
        requires
            self.wf(),
        ensures
            t == 2 * self.qubits(),
    {
        self.n * 2
    }

    /// Returns the index of the scratch row, `2n`.
    pub(crate) fn buffer_index(&self) -> (b: usize)
        requires
            self.wf(),
        ensures
            b == 2 * self.qubits(),
    {
        self.n * 2
    }

    /// Returns the column that holds the X bit of qubit `q`.
    #[inline]
    pub(crate) fn x_index(&self, q: usize) -> (c: usize)
        requires
            self.wf(),
            q < self.qubits(),
        ensures
            c == q,
    {
        q
    }

    /// Returns the column that holds the Z bit of qubit `q`.
    #[inline]
    pub(crate) fn z_index(&self, q: usize) -> (c: usize)
        requires
            self.wf(),
            q < self.qubits(),
        ensures
            c == q + self.qubits(),
    {
        q + self.n
    }

    /// Returns the row that holds destabilizer `r`.
    #[inline]
    pub(crate) fn d_index(&self, r: usize) -> (row: usize)
        requires
            self.wf(),
            r < self.qubits(),
        ensures
            row == r,
    {
        r
    }

    /// Returns the row that holds stabilizer `r`.
    #[inline]
    pub(crate) fn s_index(&self, r: usize) -> (row: usize)
        requires
            self.wf(),
            r < self.qubits(),
        ensures
            row == r + self.qubits(),
    {
        r + self.n
    }

    /// Reads the X bit of qubit `q` in `row`. Rows `0..n` hold the
    /// destabilizers, rows `n..2n` the stabilizers, row `2n` is the scratch
    /// row.
    #[inline]
    pub fn x_bit(&self, row: usize, q: usize) -> (bit: bool)
        requires
            self.wf(),
            row <= 2 * self.qubits(),
            q < self.qubits(),
        ensures
            bit == self.rows()[row as int].x[q as int],
    {
        self.g[row][self.x_index(q)]
    }

    /// Reads the Z bit of qubit `q` in `row`, with the rows numbered as for
    /// `x_bit`.
    #[inline]
    pub fn z_bit(&self, row: usize, q: usize) -> (bit: bool)
        requires
            self.wf(),
            row <= 2 * self.qubits(),
            q < self.qubits(),
        ensures
            bit == self.rows()[row as int].z[q as int],
    {
        self.g[row][self.z_index(q)]
    }

    /// Reads the phase exponent of `row`, with the rows numbered as for
    /// `x_bit`.
    #[inline]
    pub fn phase_of(&self, row: usize) -> (phase: usize)
        requires
            self.wf(),
            row <= 2 * self.qubits(),
        ensures
            phase == self.rows()[row as int].phase,
            phase < PHASE_QUANT,
    {
        self.f[row]
    }

    /// Writes the X bit of qubit `q` in `row`.
    #[inline]
    pub(crate) fn set_x_bit(&mut self, row: usize, q: usize, bit: bool)
        requires
            old(self).wf(),
            row <= 2 * old(self).qubits(),
            q < old(self).qubits(),
        ensures
            final(self).wf(),
            final(self).qubits() == old(self).qubits(),
            final(self).rows() == old(self).rows().update(
                row as int,
                old(self).rows()[row as int].with_x(q as int, bit),
            ),
    {
        let col = self.x_index(q);
        self.g[row][col] = bit;
        assert(self.rows() =~~= old(self).rows().update(
            row as int,
            old(self).rows()[row as int].with_x(q as int, bit),
        ));
    }

    /// Writes the Z bit of qubit `q` in `row`.
    #[inline]
    pub(crate) fn set_z_bit(&mut self, row: usize, q: usize, bit: bool)
        requires
            old(self).wf(),
            row <= 2 * old(self).qubits(),
            q < old(self).qubits(),
        ensures
            final(self).wf(),
            final(self).qubits() == old(self).qubits(),
            final(self).rows() == old(self).rows().update(
                row as int,
                old(self).rows()[row as int].with_z(q as int, bit),
            ),
    {
        let col = self.z_index(q);
        self.g[row][col] = bit;
        assert(self.rows() =~~= old(self).rows().update(
            row as int,
            old(self).rows()[row as int].with_z(q as int, bit),
        ));
    }

    /// Writes the phase exponent of `row`.
    #[inline]
    pub(crate) fn set_phase(&mut self, row: usize, phase: usize)
        requires
            old(self).wf(),
            row <= 2 * old(self).qubits(),
            phase < PHASE_QUANT,
        ensures
            final(self).wf(),
            final(self).qubits() == old(self).qubits(),
            final(self).rows() == old(self).rows().update(
                row as int,
                old(self).rows()[row as int].with_phase(phase as int),
            ),
    {
        self.f[row] = phase;
        assert(self.rows() =~~= old(self).rows().update(
            row as int,
            old(self).rows()[row as int].with_phase(phase as int),
        ));
    }

    /// Reads the bit in column `col` of `row`: an X bit for a column below
    /// `n`, a Z bit otherwise.
    #[inline]
    pub(crate) fn bit_at(&self, row: usize, col: usize) -> (bit: bool)
        requires
            self.wf(),
            row <= 2 * self.qubits(),
            col < 2 * self.qubits(),
        ensures
            bit == self.rows()[row as int].bit(col as int),
    {
        self.g[row][col]
    }

    /// Finds the first logical row in `lo..hi` whose bit in column `col` is
    /// set.
    pub(crate) fn find_row(&self, col: usize, lo: usize, hi: usize) -> (found: Option<usize>)
        requires
            self.wf(),
            col < 2 * self.qubits(),
            lo <= hi <= 2 * self.qubits(),
        ensures
            match found {
                Some(k) => lo <= k < hi && k == first_set(
                    self@.rows,
                    col as int,
                    lo as int,
                    hi as int,
                ),
                None => first_set(self@.rows, col as int, lo as int, hi as int) == hi,
            },
    {
        let mut k = lo;
        while k < hi
            invariant
                self.wf(),
                col < 2 * self.qubits(),
                lo <= k <= hi <= 2 * self.qubits(),
                first_set(self@.rows, col as int, lo as int, hi as int) == first_set(
                    self@.rows,
                    col as int,
                    k as int,
                    hi as int,
                ),
            decreases hi - k,
        {
            if self.bit_at(k, col) {
                return Some(k);
            }
            k += 1;
        }
        None
    }

    /// Tells whether qubit `q` of `row` is labelled `X`.
    #[inline]
    pub(crate) fn is_x(&self, row: usize, q: usize) -> (b: bool)
        requires
            self.wf(),
            row <= 2 * self.qubits(),
            q < self.qubits(),
        ensures
            b == (self.rows()[row as int].label(q as int) == Pauli::X),
    {
        self.x_bit(row, q) && !self.z_bit(row, q)
    }

    /// Tells whether qubit `q` of `row` is labelled `Y`.
    #[inline]
    pub(crate) fn is_y(&self, row: usize, q: usize) -> (b: bool)
        requires
            self.wf(),
            row <= 2 * self.qubits(),
            q < self.qubits(),
        ensures
            b == (self.rows()[row as int].label(q as int) == Pauli::Y),
    {
        self.x_bit(row, q) && self.z_bit(row, q)
    }

    /// Tells whether qubit `q` of `row` is labelled `Z`.
    #[inline]
    pub(crate) fn is_z(&self, row: usize, q: usize) -> (b: bool)
        requires
            self.wf(),
            row <= 2 * self.qubits(),
            q < self.qubits(),
        ensures
            b == (self.rows()[row as int].label(q as int) == Pauli::Z),
    {
        !self.x_bit(row, q) && self.z_bit(row, q)
    }

    /// Negates `row`: adds a half turn to its phase.
    #[inline]
    pub(crate) fn add_phase(&mut self, row: usize)
        requires
            old(self).wf(),
            row <= 2 * old(self).qubits(),
        ensures
            final(self).wf(),
            final(self).qubits() == old(self).qubits(),
            final(self).rows() == old(self).rows().update(
                row as int,
                old(self).rows()[row as int].negated(),
            ),
    {
        let phase = (self.phase_of(row) + PHASE_QUANT / 2) % PHASE_QUANT;
        self.set_phase(row, phase);
    }

    /// Exchanges two logical rows by way of the scratch row, which is left
    /// holding what `row2` held.
    #[inline]
    pub(crate) fn swap_rows(&mut self, row1: usize, row2: usize)
        requires
            old(self).wf(),
            row1 < 2 * old(self).qubits(),
            row2 < 2 * old(self).qubits(),
        ensures
            final(self).wf(),
            final(self).qubits() == old(self).qubits(),
            final(self).rows() == old(self).rows().update(
                row1 as int,
                old(self).rows()[row2 as int],
            ).update(row2 as int, old(self).rows()[row1 as int]).update(
                2 * old(self).qubits() as int,
                old(self).rows()[row2 as int],
            ),
    {
        let buffer = self.buffer_index();
        self.copy_rows(buffer, row2);
        self.copy_rows(row2, row1);
        self.copy_rows(row1, buffer);
        assert(self.rows() =~= old(self).rows().update(
            row1 as int,
            old(self).rows()[row2 as int],
        ).update(row2 as int, old(self).rows()[row1 as int]).update(
            2 * old(self).qubits() as int,
            old(self).rows()[row2 as int],
        ));
    }

    /// Overwrites the bits and the phase of `target` with those of
    /// `source`.
    pub(crate) fn copy_rows(&mut self, target: usize, source: usize)
        requires
            old(self).wf(),
            target <= 2 * old(self).qubits(),
            source <= 2 * old(self).qubits(),
        ensures
            final(self).wf(),
            final(self).qubits() == old(self).qubits(),
            final(self).rows() == old(self).rows().update(
                target as int,
                old(self).rows()[source as int],
            ),
    {
        let ghost before = self.rows();
        let ghost src = before[source as int];
        let ghost tgt = before[target as int];
        let ghost n = self.qubits();
        let size = self.n;
        assert(before =~~= before.update(
            target as int,
            PauliRow {
                x: Seq::new(n, |j: int| if j < 0 { src.x[j] } else { tgt.x[j] }),
                z: Seq::new(n, |j: int| if j < 0 { src.z[j] } else { tgt.z[j] }),
                phase: tgt.phase,
            },
        ));
        for qubit in 0..size
            invariant
                size == n,
                self.wf(),
                self.qubits() == n,
                target <= 2 * n,
                source <= 2 * n,
                before.len() == 2 * n + 1,
                src == before[source as int],
                tgt == before[target as int],
                src.wf(n),
                tgt.wf(n),
                self.rows() == before.update(
                    target as int,
                    PauliRow {
                        x: Seq::new(n, |j: int| if j < qubit { src.x[j] } else { tgt.x[j] }),
                        z: Seq::new(n, |j: int| if j < qubit { src.z[j] } else { tgt.z[j] }),
                        phase: tgt.phase,
                    },
                ),
        {
            let x = self.x_bit(source, qubit);
            let z = self.z_bit(source, qubit);
            self.set_x_bit(target, qubit, x);
            self.set_z_bit(target, qubit, z);
            assert(self.rows() =~~= before.update(
                target as int,
                PauliRow {
                    x: Seq::new(n, |j: int| if j < qubit + 1 { src.x[j] } else { tgt.x[j] }),
                    z: Seq::new(n, |j: int| if j < qubit + 1 { src.z[j] } else { tgt.z[j] }),
                    phase: tgt.phase,
                },
            ));
        }
        let phase = self.phase_of(source);
        assert(phase == src.phase);
        self.set_phase(target, phase);
        assert(self.rows() =~~= before.update(target as int, src));
    }

    /// Multiplies `target_row` by `control_row`: the bits are added modulo
    /// 2, the phases and the per-qubit carries are summed in a signed
    /// accumulator and reduced into `0..4` at the end.
    pub(crate) fn mult_row(&mut self, target_row: usize, control_row: usize)
        requires
            old(self).wf(),
            target_row <= 2 * old(self).qubits(),
            control_row <= 2 * old(self).qubits(),
            target_row != control_row,
        ensures
            final(self).wf(),
            final(self).qubits() == old(self).qubits(),
            final(self).rows() == old(self).rows().update(
                target_row as int,
                product(old(self).rows()[target_row as int], old(self).rows()[control_row as int]),
            ),
    {
        let ghost before = self.rows();
        let ghost ctl = before[control_row as int];
        let ghost tgt = before[target_row as int];
        let ghost n = self.qubits();
        let size = self.n;
        let mut e: i128 = 0;
        for q in 0..size
            invariant
                size == n,
                self.wf(),
                self.qubits() == n,
                target_row <= 2 * n,
                control_row <= 2 * n,
                self.rows() == before,
                ctl == before[control_row as int],
                tgt == before[target_row as int],
                e == exponent_upto(tgt, ctl, q as nat),
                -q <= e <= q,
        {
            if self.is_x(control_row, q) {
                if self.is_y(target_row, q) {
                    e += 1;
                } else if self.is_z(target_row, q) {
                    e -= 1;
                }
            } else if self.is_y(control_row, q) {
                if self.is_z(target_row, q) {
                    e += 1;
                } else if self.is_x(target_row, q) {
                    e -= 1;
                }
            } else if self.is_z(control_row, q) {
                if self.is_x(target_row, q) {
                    e += 1;
                } else if self.is_y(target_row, q) {
                    e -= 1;
                }
            }
        }

        let f = (self.phase_of(target_row) + self.phase_of(control_row)) as i128;
        let phase_quant = PHASE_QUANT as i128;
        e = (e + f) % phase_quant;
        if !(e >= 0) {
            e += phase_quant;
        }
        self.set_phase(target_row, e as usize);
        let ghost phase = product(tgt, ctl).phase;
        assert(e == phase);
        assert(self.rows() =~~= before.update(
            target_row as int,
            PauliRow {
                x: Seq::new(n, |j: int| if j < 0 { tgt.x[j] != ctl.x[j] } else { tgt.x[j] }),
                z: Seq::new(n, |j: int| if j < 0 { tgt.z[j] != ctl.z[j] } else { tgt.z[j] }),
                phase,
            },
        ));

        for qubit in 0..size
            invariant
                size == n,
                self.wf(),
                self.qubits() == n,
                target_row <= 2 * n,
                control_row <= 2 * n,
                target_row != control_row,
                before.len() == 2 * n + 1,
                ctl == before[control_row as int],
                tgt == before[target_row as int],
                ctl.wf(n),
                tgt.wf(n),
                0 <= phase < 4,
                self.rows() == before.update(
                    target_row as int,
                    PauliRow {
                        x: Seq::new(
                            n,
                            |j: int| if j < qubit { tgt.x[j] != ctl.x[j] } else { tgt.x[j] },
                        ),
                        z: Seq::new(
                            n,
                            |j: int| if j < qubit { tgt.z[j] != ctl.z[j] } else { tgt.z[j] },
                        ),
                        phase,
                    },
                ),
        {
            let x = self.x_bit(target_row, qubit) ^ self.x_bit(control_row, qubit);
            let z = self.z_bit(target_row, qubit) ^ self.z_bit(control_row, qubit);
            self.set_x_bit(target_row, qubit, x);
            self.set_z_bit(target_row, qubit, z);
            assert(self.rows() =~~= before.update(
                target_row as int,
                PauliRow {
                    x: Seq::new(
                        n,
                        |j: int| if j < qubit + 1 { tgt.x[j] != ctl.x[j] } else { tgt.x[j] },
                    ),
                    z: Seq::new(
                        n,
                        |j: int| if j < qubit + 1 { tgt.z[j] != ctl.z[j] } else { tgt.z[j] },
                    ),
                    phase,
                },
            ));
        }
        assert(self.rows() =~~= before.update(target_row as int, product(tgt, ctl)));
    }

    /// Resets `row` to the generator with the single bit `obs` set: `X` on
    /// qubit `obs` for a column below `n`, `Z` on qubit `obs - n` otherwise,
    /// with phase zero.
    pub(crate) fn set_row(&mut self, row: usize, obs: usize)
        requires
            old(self).wf(),
            row <= 2 * old(self).qubits(),
            obs < 2 * old(self).qubits(),
        ensures
            final(self).wf(),
            final(self).qubits() == old(self).qubits(),
            final(self).rows() == old(self).rows().update(
                row as int,
                basis_row(old(self).qubits(), obs as int),
            ),
    {
        self.clear_row(row);
        if obs < self.n {
            self.set_x_bit(row, obs, true);
        } else {
            let q = obs - self.n;
            self.set_z_bit(row, q, true);
        }
        assert(self.rows() =~~= old(self).rows().update(
            row as int,
            basis_row(old(self).qubits(), obs as int),
        ));
    }

    /// Resets `row` to the identity with phase zero.
    fn clear_row(&mut self, row: usize)
        requires
            old(self).wf(),
            row <= 2 * old(self).qubits(),
        ensures
            final(self).wf(),
            final(self).qubits() == old(self).qubits(),
            final(self).rows() == old(self).rows().update(
                row as int,
                PauliRow::identity(old(self).qubits()),
            ),
    {
        let ghost before = self.rows();
        let ghost tgt = before[row as int];
        let ghost n = self.qubits();
        let size = self.n;
        self.set_phase(row, 0);
        assert(self.rows() =~~= before.update(
            row as int,
            PauliRow {
                x: Seq::new(n, |j: int| if j < 0 { false } else { tgt.x[j] }),
                z: Seq::new(n, |j: int| if j < 0 { false } else { tgt.z[j] }),
                phase: 0,
            },
        ));
        for i in 0..size
            invariant
                size == n,
                self.wf(),
                self.qubits() == n,
                row <= 2 * n,
                before.len() == 2 * n + 1,
                tgt == before[row as int],
                tgt.wf(n),
                self.rows() == before.update(
                    row as int,
                    PauliRow {
                        x: Seq::new(n, |j: int| if j < i { false } else { tgt.x[j] }),
                        z: Seq::new(n, |j: int| if j < i { false } else { tgt.z[j] }),
                        phase: 0,
                    },
                ),
        {
            self.set_x_bit(row, i, false);
            self.set_z_bit(row, i, false);
            assert(self.rows() =~~= before.update(
                row as int,
                PauliRow {
                    x: Seq::new(n, |j: int| if j < i + 1 { false } else { tgt.x[j] }),
                    z: Seq::new(n, |j: int| if j < i + 1 { false } else { tgt.z[j] }),
                    phase: 0,
                },
            ));
        }
        assert(self.rows() =~~= before.update(row as int, PauliRow::identity(n)));
    }

    /// Resets the scratch row to the identity with phase zero.
    pub(crate) fn clean_buffer(&mut self)
        requires
            old(self).wf(),
        ensures
            final(self).wf(),
            final(self).qubits() == old(self).qubits(),
            final(self)@ == old(self)@,
            final(self).scratch() == PauliRow::identity(old(self).qubits()),
            final(self).rows() == old(self).rows().update(
                2 * old(self).qubits() as int,
                PauliRow::identity(old(self).qubits()),
            ),
    {
        let buffer_index = self.buffer_index();
        self.clear_row(buffer_index);
        assert(self@ =~= old(self)@);
    }
}

/// The generator with the single bit in column `obs` set: `X` on qubit
/// `obs` for a column below `n`, `Z` on qubit `obs - n` otherwise.
pub open spec fn basis_row(n: nat, obs: int) -> PauliRow {
    if obs < n {
        PauliRow::single_x(n, obs)
    } else {
        PauliRow::single_z(n, obs - n, 0)
    }
}

} // verus!
