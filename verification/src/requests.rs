//! Requests to compile and to sample a circuit: which are refused and why, and what
//! the accepted ones ask of a backend.
use vstd::prelude::*;
use crate::errors::{decimal, push_decimal};
use crate::sampler::SamplerOptions;
use crate::schedule::SampleResult;
use crate::sim_error::SimError;

verus! {

/// A refused request.
#[derive(Clone, Debug, PartialEq, Eq)]
pub enum RequestError {
    /// An argument is out of its range.
    Value(String),
    /// The request cannot be carried out here.
    Runtime(String),
}

/// A refusal, with its text.
pub enum Refusal {
    Value(Seq<char>),
    Runtime(Seq<char>),
}

impl View for RequestError {
    type V = Refusal;

    open spec fn view(&self) -> Refusal {
        match *self {
            RequestError::Value(text) => Refusal::Value(text@),
            RequestError::Runtime(text) => Refusal::Runtime(text@),
        }
    }
}

/// The backend that a request names.
#[derive(Clone, Debug, PartialEq, Eq)]
pub enum BackendName {
    Cpu,
    Gpu,
    /// Any other name, quoted for a message.
    Other(String),
}

/// A request to compile a circuit.
#[derive(Clone, Debug, PartialEq, Eq)]
pub struct CompileRequest {
    pub options: SamplerOptions,
    pub backend: BackendName,
    /// The largest number of shots of one GPU launch.
    pub gpu_chunk_shots: usize,
}

/// What a circuit declares.
#[derive(Clone, Copy, Debug, PartialEq, Eq, Structural)]
pub struct CircuitSummary {
    pub detectors: usize,
    pub observables: usize,
    /// Every detector discards.
    pub all_detectors_postselected: bool,
    /// Some detector discards.
    pub has_detector_postselection: bool,
}

/// What an accepted request asks for.
#[derive(Clone, Debug, PartialEq, Eq)]
pub enum BackendPlan {
    /// Sampling on the processor with these options.
    Cpu(SamplerOptions),
    /// Sampling on the device, in launches of at most `chunk_shots` shots.
    Gpu { chunk_shots: usize, postselect_detectors: bool, options: SamplerOptions },
}

/// `<name> has length <found>, expected <wanted>`.
pub open spec fn length_text(name: Seq<char>, found: nat, wanted: nat) -> Seq<char> {
    name + " has length "@ + decimal(found) + ", expected "@ + decimal(wanted)
}

/// Whether a flag is set.
pub open spec fn any_flag(mask: Seq<u8>) -> bool {
    exists|i: int| 0 <= i < mask.len() && #[trigger] mask[i] != 0
}

/// Whether every flag of a mask is set, and there is one.
pub open spec fn all_flags(mask: Seq<u8>) -> bool {
    mask.len() > 0 && forall|i: int| 0 <= i < mask.len() ==> #[trigger] mask[i] != 0
}

/// The device discards for all detectors or for none.
pub open spec fn selective(mask: Seq<u8>, circuit: CircuitSummary) -> bool {
    &&& !all_flags(mask)
    &&& any_flag(mask) || (circuit.has_detector_postselection
        && !circuit.all_detectors_postselected)
}

/// Why the arguments are refused, whatever the backend.
pub open spec fn argument_refusal(o: SamplerOptions, circuit: CircuitSummary) -> Option<Refusal> {
    if o.threads == 0 {
        Some(Refusal::Value("threads must be positive"@))
    } else if o.postselection_mask@.len() != 0 && o.postselection_mask@.len() != circuit.detectors {
        Some(
            Refusal::Value(
                length_text(
                    "postselection_mask"@,
                    o.postselection_mask@.len(),
                    circuit.detectors as nat,
                ),
            ),
        )
    } else if o.normalize_syndromes && (o.expected_detectors@.len() != 0
        || o.expected_observables@.len() != 0) {
        Some(
            Refusal::Value(
                "normalize_syndromes cannot be combined with expected_detectors or expected_observables"@,
            ),
        )
    } else if o.expected_detectors@.len() != 0 && o.expected_detectors@.len() != circuit.detectors {
        Some(
            Refusal::Value(
                length_text(
                    "expected_detectors"@,
                    o.expected_detectors@.len(),
                    circuit.detectors as nat,
                ),
            ),
        )
    } else if o.expected_observables@.len() != 0 && o.expected_observables@.len()
        != circuit.observables {
        Some(
            Refusal::Value(
                length_text(
                    "expected_observables"@,
                    o.expected_observables@.len(),
                    circuit.observables as nat,
                ),
            ),
        )
    } else {
        None
    }
}

/// Why the backend is refused; `gpu` tells whether a device can be used.
pub open spec fn backend_refusal(
    request: CompileRequest,
    circuit: CircuitSummary,
    gpu: bool,
) -> Option<Refusal> {
    match request.backend {
        BackendName::Cpu => None,
        BackendName::Gpu => if !gpu {
            Some(
                Refusal::Runtime(
                    "the GPU backend requires ticit_py built with Cargo feature `gpu`"@,
                ),
            )
        } else if selective(request.options.postselection_mask@, circuit) {
            Some(
                Refusal::Value(
                    "the GPU backend supports only no detector postselection or all detectors postselected"@,
                ),
            )
        } else if request.gpu_chunk_shots == 0 {
            Some(Refusal::Value("gpu_chunk_shots must be positive"@))
        } else {
            None
        },
        BackendName::Other(quoted) => Some(
            Refusal::Value("unknown backend "@ + quoted@ + "; expected 'cpu' or 'gpu'"@),
        ),
    }
}

/// Why a request to compile is refused.
pub open spec fn compile_refusal(
    request: CompileRequest,
    circuit: CircuitSummary,
    gpu: bool,
) -> Option<Refusal> {
    match argument_refusal(request.options, circuit) {
        Some(refusal) => Some(refusal),
        None => backend_refusal(request, circuit, gpu),
    }
}

fn value(text: &str) -> (r: RequestError)
    ensures
        r@ == Refusal::Value(text@),
{
    RequestError::Value(text.to_owned())
}

fn wrong_length(name: &str, found: usize, wanted: usize) -> (r: RequestError)
    ensures
        r@ == Refusal::Value(length_text(name@, found as nat, wanted as nat)),
{
    let mut text: String = name.to_owned();
    text.append(" has length ");
    push_decimal(&mut text, found as u64);
    text.append(", expected ");
    push_decimal(&mut text, wanted as u64);
    RequestError::Value(text)
}

/// Reads a backend name without regard to case; `quoted` is the name as a message
/// spells it.
pub fn backend_name(name: &str, quoted: String) -> (r: BackendName)
    ensures
        r == if spells(name@, 'c', 'C') {
            BackendName::Cpu
        } else if spells(name@, 'g', 'G') {
            BackendName::Gpu
        } else {
            BackendName::Other(quoted)
        },
{
    if name.unicode_len() != 3 {
        return BackendName::Other(quoted);
    }
    let first: char = name.get_char(0);
    let second: char = name.get_char(1);
    let third: char = name.get_char(2);
    let unit: bool = (second == 'p' || second == 'P') && (third == 'u' || third == 'U');
    if unit && (first == 'c' || first == 'C') {
        BackendName::Cpu
    } else if unit && (first == 'g' || first == 'G') {
        BackendName::Gpu
    } else {
        BackendName::Other(quoted)
    }
}

/// The name is a processing unit whose first letter is given in both cases.
pub open spec fn spells(name: Seq<char>, lower: char, upper: char) -> bool {
    &&& name.len() == 3
    &&& name[0] == lower || name[0] == upper
    &&& name[1] == 'p' || name[1] == 'P'
    &&& name[2] == 'u' || name[2] == 'U'
}

fn has_flag(mask: &Vec<u8>) -> (r: bool)
    ensures
        r == any_flag(mask@),
{
    let mut i: usize = 0;
    while i < mask.len()
        invariant
            i <= mask@.len(),
            forall|j: int| 0 <= j < i ==> #[trigger] mask@[j] == 0,
        decreases mask@.len() - i,
    {
        if mask[i] != 0 {
            assert(mask@[i as int] != 0);
            return true;
        }
        i += 1;
    }
    false
}

fn has_all_flags(mask: &Vec<u8>) -> (r: bool)
    ensures
        r == all_flags(mask@),
{
    let mut i: usize = 0;
    while i < mask.len()
        invariant
            i <= mask@.len(),
            forall|j: int| 0 <= j < i ==> #[trigger] mask@[j] != 0,
        decreases mask@.len() - i,
    {
        if mask[i] == 0 {
            assert(mask@[i as int] == 0);
            return false;
        }
        i += 1;
    }
    mask.len() > 0
}

/// Checks a request to compile a circuit, and settles what the backend is asked
/// for. `gpu` tells whether a device can be used.
pub fn plan_compile(request: CompileRequest, circuit: CircuitSummary, gpu: bool) -> (r: Result<
    BackendPlan,
    RequestError,
>)
    ensures
        match r {
            Err(e) => compile_refusal(request, circuit, gpu) == Some(e@),
            Ok(plan) => compile_refusal(request, circuit, gpu) is None && plan == if request.backend
                is Cpu {
                BackendPlan::Cpu(request.options)
            } else {
                BackendPlan::Gpu {
                    chunk_shots: request.gpu_chunk_shots,
                    postselect_detectors: all_flags(request.options.postselection_mask@)
                        || circuit.all_detectors_postselected,
                    options: request.options,
                }
            },
        },
{
    let o: &SamplerOptions = &request.options;
    let flags: usize = o.postselection_mask.len();
    let detector_bits: usize = o.expected_detectors.len();
    let observable_bits: usize = o.expected_observables.len();
    if o.threads == 0 {
        return Err(value("threads must be positive"));
    }
    if flags != 0 && flags != circuit.detectors {
        return Err(wrong_length("postselection_mask", flags, circuit.detectors));
    }
    if o.normalize_syndromes && (detector_bits != 0 || observable_bits != 0) {
        return Err(
            value(
                "normalize_syndromes cannot be combined with expected_detectors or expected_observables",
            ),
        );
    }
    if detector_bits != 0 && detector_bits != circuit.detectors {
        return Err(wrong_length("expected_detectors", detector_bits, circuit.detectors));
    }
    if observable_bits != 0 && observable_bits != circuit.observables {
        return Err(wrong_length("expected_observables", observable_bits, circuit.observables));
    }
    match &request.backend {
        BackendName::Cpu => {},
        BackendName::Gpu => {
            if !gpu {
                return Err(
                    RequestError::Runtime(
                        "the GPU backend requires ticit_py built with Cargo feature `gpu`".to_owned(),
                    ),
                );
            }
            let requested_all: bool = has_all_flags(&o.postselection_mask);
            let requested_any: bool = has_flag(&o.postselection_mask);
            let selective_source: bool = circuit.has_detector_postselection
                && !circuit.all_detectors_postselected;
            if (requested_any && !requested_all) || (selective_source && !requested_all) {
                return Err(
                    value(
                        "the GPU backend supports only no detector postselection or all detectors postselected",
                    ),
                );
            }
            if request.gpu_chunk_shots == 0 {
                return Err(value("gpu_chunk_shots must be positive"));
            }
            return Ok(
                BackendPlan::Gpu {
                    chunk_shots: request.gpu_chunk_shots,
                    postselect_detectors: requested_all || circuit.all_detectors_postselected,
                    options: request.options,
                },
            );
        },
        BackendName::Other(quoted) => {
            let mut text: String = "unknown backend ".to_owned();
            text.append(quoted.as_str());
            text.append("; expected 'cpu' or 'gpu'");
            return Err(RequestError::Value(text));
        },
    }
    Ok(BackendPlan::Cpu(request.options))
}

/// Refuses a call without shots.
pub fn check_shots(shots: u64) -> (r: Result<(), RequestError>)
    ensures
        match r {
            Ok(_) => shots > 0,
            Err(e) => shots == 0 && e@ == Refusal::Value("shots must be positive"@),
        },
{
    if shots == 0 {
        return Err(value("shots must be positive"));
    }
    Ok(())
}

/// Refuses a result without the rows that were asked for.
pub fn check_rows(result: &SampleResult, keep_records: bool, backend: &str) -> (r: Result<
    (),
    RequestError,
>)
    ensures
        match r {
            Ok(_) => keep_records ==> result.record_rows == result.tally.counts.accepted,
            Err(e) => {
                &&& keep_records
                &&& result.record_rows != result.tally.counts.accepted
                &&& e@ == Refusal::Runtime(
                    "the "@ + backend@ + " backend does not support per-shot record output"@,
                )
            },
        },
{
    if keep_records && result.record_rows as u64 != result.tally.counts.accepted {
        let mut text: String = "the ".to_owned();
        text.append(backend);
        text.append(" backend does not support per-shot record output");
        return Err(RequestError::Runtime(text));
    }
    Ok(())
}

/// Whether a simulator error is about the arguments, and not about the state.
pub fn blames_arguments(error: &SimError) -> (r: bool)
    ensures
        r == match *error {
            SimError::InvalidProbability(_) | SimError::InvalidProbabilityDistribution
            | SimError::InvalidRotationAngle(_) | SimError::RepeatedQubit(_)
            | SimError::NonCommutingControlledPaulis | SimError::InvalidControlledPauli
            | SimError::NonHermitianPauli | SimError::QubitIndexOutOfRange { .. } => true,
            SimError::EmptyStateAfterPruning { .. } | SimError::RankOverflow { .. }
            | SimError::PostselectImpossible { .. } | SimError::MissingBatchRecord { .. } => false,
        },
{
    match error {
        SimError::EmptyStateAfterPruning { .. } | SimError::RankOverflow { .. }
        | SimError::PostselectImpossible { .. } | SimError::MissingBatchRecord { .. } => false,
        _ => true,
    }
}

} // verus!
