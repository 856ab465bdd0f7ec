//! Simulation of Clifford circuits by the stabilizer-tableau method.
//!
//! A state of `n` qubits that Hadamard, phase and CNOT gates reach from
//! `|0...0>` is described by `n` commuting Pauli operators, its stabilizer
//! generators, kept in a tableau together with `n` destabilizer generators.
//! Gates and measurements act on the tableau in time polynomial in `n`.
//!
//! [`CliffordSimulator`] is the executable tableau. Its contracts are
//! stated over [`tableau::Tableau`], the tableau as a mathematical value,
//! and over the Pauli algebra of [`pauli`]:
//!
//! * [`gates`] gives the action of each gate on a generator and on a
//!   tableau;
//! * [`measure`] gives the outcome of a measurement and the state after
//!   it, as functions of the state before and of one coin;
//! * [`canonical`] gives the canonical form that Gaussian elimination
//!   reaches, and [`render`] the text that enumerates the basis states of
//!   a state.
//!
//! Beyond the contracts, the library proves what these definitions mean:
//!
//! * every operation keeps the stabilizer-state invariant of
//!   [`tableau::Tableau::is_stabilizer_state`], for any sequence of
//!   operations ([`circuit`]);
//! * the stabilizers of such a state generate an abelian group of `2^n`
//!   operators with real coefficients ([`group`]);
//! * a forced measurement outcome is the sign of `Z` on the measured
//!   qubit, and a repeated measurement repeats its outcome ([`measure`]);
//! * the canonical form is in echelon form, the seed of the enumeration
//!   satisfies the stabilizers that constrain signs only ([`seed`]), each
//!   step of the enumeration multiplies by one stabilizer, and no basis
//!   state is named twice ([`enumeration`]);
//! * the GHZ circuit gives two kets and perfectly correlated measurements
//!   for every number of qubits ([`ghz`]).

pub mod canonical;
pub mod circuit;
mod coin;
pub mod enumeration;
pub mod gates;
pub mod ghz;
pub mod group;
pub mod measure;
pub mod pauli;
pub mod render;
pub mod seed;
pub mod simulator;
pub mod tableau;

pub use measure::MeasureReturns;
pub use simulator::CliffordSimulator;
