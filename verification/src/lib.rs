//! Simulation and sampling of Clifford circuits with Pauli rotations, proved.
//!
//! The library has two engines.
//!
//! * [`simulator::TableauSimulator`] holds one quantum state: a Clifford frame
//!   `R` ([`frame`]) and a sparse list of amplitudes over the cosets of the
//!   stabilizer group ([`label`], [`terms`]). Clifford gates ([`gates`],
//!   [`simulator`]) rewrite the frame alone; rotations ([`evolve`]), measurements
//!   and resets ([`collapse`]) decompose a Pauli in the frame and rewrite the
//!   amplitudes; [`batch`] replays lists of [`instruction`]s.
//! * [`sampler::Sampler`] runs a planned program ([`program`]) on many shots at
//!   once. Noise is drawn ahead of time ([`exogenous`]) and enters as symbols
//!   ([`symbolic`]) whose XORs are tabulated for a whole chunk of shots
//!   ([`presampled_expression`]). The executor ([`executor`], [`runtime`],
//!   [`driver`]) keeps symbols, records and detectors as bit-planes of 64 shots to
//!   a word ([`planes`], [`symbols`]) next to the amplitudes of a few active
//!   qubits ([`amplitudes`], [`lanes`], [`parts`], [`runs`]). Detectors can discard
//!   shots ([`postselect`], [`survive`], [`compaction`]). Chunks are spread over workers
//!   ([`chunks`], [`schedule`]) and come out as rows and counts ([`outputs`]).
//!
//! Contracts speak of mathematical models: Pauli operators `i^k·X^a·Z^b` over
//! sequences of bits ([`pauli`]), tableaus of such operators, and, for the sampler,
//! the live shots one by one ([`model`], [`postselect_model`]). [`frame_laws`],
//! [`measure_laws`], [`execution_laws`], [`repeat_laws`], [`worker_laws`] and
//! [`pinning_laws`] hold what relates several operations. The others hold what single
//! steps mean: [`method_laws`], [`circuit_laws`], [`clifford_laws`] and [`batch_laws`] the
//! methods of the simulator and the instructions of a circuit, [`noise_laws`] the families
//! of noise, [`step_laws`], [`active_laws`], [`amplitude_laws`] and [`merge_laws`] the steps
//! of the executor and its amplitudes, [`chunk_laws`] which noise a shot takes,
//! [`output_laws`] what rows and counts hold, and [`value_laws`] what small values do.
//!
//! Nothing here computes with floating point. Angles, probabilities and
//! expectation values are carried as the bits of a double; amplitudes are of a type
//! that the caller chooses, and the arithmetic on them, with the drawing of random
//! numbers, is handed in through [`kernels::ActiveKernels`] and
//! [`evolve::TermKernels`]. What a function asks of that arithmetic stands in its
//! `requires` clause.
//!
//! [`pinning`] fixes what the noiseless circuit measures, [`reference`] computes
//! what it gives, [`causality`] checks that symbols are assigned before they are
//! used, [`requests`] decides which requests to compile and to sample are served,
//! and [`validate`] and [`validate_draws`] decide whether a program and its noise
//! meet what preparation and sampling require.
pub mod active_laws;
pub mod amplitude_laws;
pub mod amplitudes;
pub mod batch;
pub mod batch_laws;
pub mod bits;
pub mod causality;
pub mod chunk_laws;
pub mod chunks;
pub mod circuit_laws;
pub mod clifford_laws;
pub mod collapse;
pub mod compaction;
pub mod driver;
pub mod errors;
pub mod evolve;
pub mod execution_laws;
pub mod executor;
pub mod exogenous;
pub mod follow;
pub mod frame;
pub mod frame_laws;
pub mod gates;
pub mod instruction;
pub mod kernels;
pub mod label;
pub mod lanes;
pub mod measure_laws;
pub mod merge_laws;
pub mod method_laws;
pub mod model;
pub mod noise;
pub mod noise_laws;
pub mod output_laws;
pub mod outputs;
pub mod parts;
pub mod pauli;
pub mod pinning;
pub mod pinning_laws;
pub mod planes;
pub mod postselect;
pub mod postselect_model;
pub mod presampled_expression;
pub mod program;
pub mod reference;
pub mod refine;
pub mod repeat_laws;
pub mod requests;
pub mod runs;
pub mod runtime;
pub mod sampler;
pub mod schedule;
pub mod signs;
pub mod sim_error;
pub mod simulator;
pub mod step_laws;
pub mod survive;
pub mod symbolic;
pub mod symbols;
pub mod terms;
pub mod validate;
pub mod validate_draws;
pub mod value_laws;
pub mod worker_laws;

pub use batch::BatchOutcome;
pub use errors::TicitError;
pub use evolve::MeasureResult;
pub use frame::Frame;
pub use gates::Gate1Q;
pub use instruction::{Circuit, Instruction};
pub use outputs::SampleCounts;
pub use pauli::{Pauli, PauliBasis, PauliString};
pub use program::FactoredInstructionProgram;
pub use reference::ReferenceSample;
pub use sampler::{Sampler, SamplerInfo, SamplerOptions, SamplingInput};
pub use schedule::SampleResult;
pub use sim_error::SimError;
pub use simulator::TableauSimulator;
pub use symbolic::{SymbolicBool, SymbolicContext};
