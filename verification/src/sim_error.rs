//! Typed errors for the stabilizer-frame engine.
use vstd::prelude::*;

verus! {

/// Errors returned by [`TableauSimulator`](crate::simulator::TableauSimulator)
/// operations. Every variant models a condition the caller can provoke and
/// reasonably handle. Floating-point payloads are held as the bits of a double.
#[derive(Debug, Clone, Copy, PartialEq, Eq, Structural)]
pub enum SimError {
    /// Pruning removed every amplitude and would produce a zero state.
    EmptyStateAfterPruning {
        /// The pruning threshold that erased the state.
        epsilon: u64,
    },
    /// A `T` or measurement pushed the live-label count past the configured cap.
    RankOverflow {
        /// Live-label count that triggered the overflow.
        rank: usize,
        /// The live-label ceiling in force.
        cap: usize,
    },
    /// A forced measurement outcome has (numerically) zero probability.
    PostselectImpossible {
        /// The requested (impossible) outcome.
        outcome: bool,
        /// Probability the engine computed for it.
        probability: u64,
    },
    /// A multi-qubit gate received one qubit more than once.
    RepeatedQubit(usize),
    /// A controlled-Pauli operation requires commuting control and target axes.
    NonCommutingControlledPaulis,
    /// A controlled Pauli carries a sign or phase this API does not represent.
    InvalidControlledPauli,
    /// A measurement or rotation axis has an imaginary coefficient.
    NonHermitianPauli,
    /// A batched conditional Pauli named a measurement its own batch has not
    /// produced.
    MissingBatchRecord {
        /// The out-of-range record index.
        index: usize,
    },
    /// A read-only observable names a qubit outside the live register.
    QubitIndexOutOfRange {
        /// Largest out-of-range support index.
        index: usize,
        /// Live simulator width.
        num_qubits: usize,
    },
    /// A probability lies outside the range 0 to 1.
    InvalidProbability(u64),
    /// Probabilities sum past 1, or do not match their alternatives.
    InvalidProbabilityDistribution,
    /// A rotation angle is not finite.
    InvalidRotationAngle(u64),
}

} // verus!
