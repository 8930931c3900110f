//! Prepared samplers: a planned program with its interned expressions and one
//! worker state per thread.
use vstd::prelude::*;
use crate::bits::words_for_bits;
use crate::driver::{planned, samplable};
use crate::errors::{decimal, push_decimal, Result, TicitError};
use crate::executor::{
    default_batch_count, default_batches, dimension, filled_list, reset_refusal,
    BatchFactoredExecutorState,
};
use crate::exogenous::{
    is_exogenous, outside, prepare_presampled_exogenous_packed, PackedPresampledExogenous,
};
use crate::kernels::{lawful, ActiveKernels};
use crate::outputs::{SampleCounts, SampleTally};
use crate::postselect::{
    prepare_batch_detector_postselection_scratch_for_program, BatchDetectorPostselectionOptions,
    BatchDetectorPostselectionScratch,
};
use crate::postselect_model::single_assignment;
use crate::presampled_expression::{
    prepare_presampled_expression_plan, PresampledExpressionBlock, PresampledExpressionPlan,
};
use crate::program::{has_postselection, FactoredInstructionProgram};
use crate::reference::{
    reference_refused, reference_sample_for_program, refers, ReferenceSample,
};
use crate::survive::{detectors_in_range, list_in_range, retained_by, retained_in_range};

verus! {

/// The seed base of the noise of a chunk.
pub const EXOGENOUS_SEED_BASE: u64 = 0x7eed_0000;

/// The seed base of the branches of a block.
pub const BRANCH_SEED_BASE: u64 = 0x5eed_1234;

pub const DEFAULT_SAMPLE_CHUNK_SHOTS: usize = 2048;

pub const POSTSELECTION_COMPACTION_DENOMINATOR: usize = 2;

/// How a sampler is prepared. Zero selects the automatic value of
/// `sample_chunk_shots` and `batch_size`; zero threads count as one.
#[derive(Clone, Debug, PartialEq, Eq)]
pub struct SamplerOptions {
    /// The observable whose ones are counted as logical errors.
    pub observable: usize,
    /// One flag per detector; a nonzero flag makes the detector discard.
    pub postselection_mask: Vec<u8>,
    /// Normalize detectors and observables by the noiseless reference.
    pub normalize_syndromes: bool,
    /// Expected detector bits; none leaves the detectors raw.
    pub expected_detectors: Vec<u8>,
    /// Expected observable bits; none leaves the observables raw.
    pub expected_observables: Vec<u8>,
    /// Shots of one chunk.
    pub sample_chunk_shots: usize,
    /// Shots of one block.
    pub batch_size: usize,
    /// The largest number of workers.
    pub threads: usize,
}

impl Default for SamplerOptions {
    fn default() -> (r: Self)
        ensures
            r.observable == 0,
            r.postselection_mask@.len() == 0,
            !r.normalize_syndromes,
            r.expected_detectors@.len() == 0,
            r.expected_observables@.len() == 0,
            r.sample_chunk_shots == 0,
            r.batch_size == 0,
            r.threads == 1,
    {
        SamplerOptions {
            observable: 0,
            postselection_mask: Vec::new(),
            normalize_syndromes: false,
            expected_detectors: Vec::new(),
            expected_observables: Vec::new(),
            sample_chunk_shots: 0,
            batch_size: 0,
            threads: 1,
        }
    }
}

/// What is known of a prepared sampler.
#[derive(Clone, Copy, Debug, PartialEq, Eq)]
pub struct SamplerInfo {
    pub qubits: usize,
    pub measurement_records: usize,
    pub detectors: usize,
    pub observables: usize,
    pub expectation_values: usize,
    /// The selected observable.
    pub observable: usize,
    /// The largest number of qubits of the active state.
    pub max_active_qubits: usize,
    /// Shots of one block.
    pub batch_size: usize,
    /// Shots of one chunk.
    pub sample_chunk_shots: usize,
    /// The largest number of workers.
    pub threads: usize,
    /// Whether the active state is executed in tensor factors.
    pub active_components: bool,
    /// Whether any detector discards.
    pub detector_postselection: bool,
    /// The name of the arithmetic backend.
    pub cpu_backend: &'static str,
}

/// The records of one observable declaration.
#[derive(Clone, Debug)]
pub struct CircuitObservableInclude {
    pub index: usize,
    pub records: Vec<i32>,
}

/// A planned program with its observables.
#[derive(Clone, Debug)]
pub struct SamplingInput {
    pub program: FactoredInstructionProgram,
    /// For every observable, the groups of records that it is the XOR of.
    pub observable_records: Vec<Vec<Vec<i32>>>,
    pub observable: usize,
    pub observable_includes: usize,
}

/// A copy of a list.
fn copy_list(list: &Vec<i32>) -> (r: Vec<i32>)
    ensures
        r@ == list@,
{
    let mut out: Vec<i32> = Vec::new();
    let mut i: usize = 0;
    while i < list.len()
        invariant
            i <= list@.len(),
            out@ == list@.take(i as int),
        decreases list@.len() - i,
    {
        out.push(list[i]);
        assert(out@ =~= list@.take(i + 1));
        i += 1;
    }
    assert(list@.take(i as int) =~= list@);
    out
}

/// The record groups of the declarations of an observable among the first `n`.
pub open spec fn groups_of(
    observables: Seq<CircuitObservableInclude>,
    observable: int,
    n: int,
) -> Seq<Seq<i32>>
    decreases n,
{
    if n <= 0 {
        Seq::empty()
    } else if observables[n - 1].index == observable {
        groups_of(observables, observable, n - 1).push(observables[n - 1].records@)
    } else {
        groups_of(observables, observable, n - 1)
    }
}

/// The views of the groups.
pub open spec fn group_views(groups: Seq<Vec<i32>>) -> Seq<Seq<i32>> {
    Seq::new(groups.len(), |g: int| groups[g]@)
}

/// The record groups of every declaration of an observable.
pub fn logical_records_for_observable(
    observables: &[CircuitObservableInclude],
    observable: usize,
) -> (r: Vec<Vec<i32>>)
    ensures
        group_views(r@) == groups_of(observables@, observable as int, observables@.len() as int),
{
    let mut out: Vec<Vec<i32>> = Vec::new();
    let mut i: usize = 0;
    assert(group_views(out@) =~= Seq::<Seq<i32>>::empty());
    while i < observables.len()
        invariant
            i <= observables@.len(),
            group_views(out@) == groups_of(observables@, observable as int, i as int),
        decreases observables@.len() - i,
    {
        if observables[i].index == observable {
            let ghost before = out@;
            out.push(copy_list(&observables[i].records));
            assert(group_views(out@) =~= group_views(before).push(observables@[i as int].records@));
        }
        i += 1;
    }
    out
}

/// The record groups of every observable.
pub fn logical_records_by_observable(
    observables: &[CircuitObservableInclude],
    observable_count: usize,
) -> (r: Vec<Vec<Vec<i32>>>)
    ensures
        r@.len() == observable_count,
        forall|o: int|
            0 <= o < observable_count ==> group_views((#[trigger] r@[o])@) == groups_of(
                observables@,
                o,
                observables@.len() as int,
            ),
{
    let mut out: Vec<Vec<Vec<i32>>> = Vec::new();
    let mut o: usize = 0;
    while o < observable_count
        invariant
            o <= observable_count,
            out@.len() == o,
            forall|p: int|
                0 <= p < o ==> group_views((#[trigger] out@[p])@) == groups_of(
                    observables@,
                    p,
                    observables@.len() as int,
                ),
        decreases observable_count - o,
    {
        out.push(logical_records_for_observable(observables, o));
        o += 1;
    }
    out
}

/// How many values `shots` rows of `columns` hold.
pub fn checked_output_len(shots: u64, columns: usize) -> (r: Result<usize>)
    ensures
        match r {
            Ok(len) => shots <= usize::MAX && len == shots * columns,
            Err(e) => (shots > usize::MAX || shots * columns > usize::MAX) && e@
                == "sampling output size exceeds usize"@,
        },
{
    if shots > usize::MAX as u64 {
        return Err(TicitError::new("sampling output size exceeds usize"));
    }
    match (shots as usize).checked_mul(columns) {
        Some(len) => Ok(len),
        None => Err(TicitError::new("sampling output size exceeds usize")),
    }
}

/// Shots of one chunk.
pub open spec fn chunk_size(requested: int, min_auto_shots: int) -> int {
    if requested > 0 {
        requested
    } else if DEFAULT_SAMPLE_CHUNK_SHOTS < min_auto_shots {
        min_auto_shots
    } else {
        DEFAULT_SAMPLE_CHUNK_SHOTS as int
    }
}

/// The requested chunk size, or the automatic one.
pub fn sample_chunk_or_default(requested: usize, min_auto_shots: usize) -> (r: usize)
    ensures
        r == chunk_size(requested as int, min_auto_shots as int),
{
    if requested > 0 {
        requested
    } else if DEFAULT_SAMPLE_CHUNK_SHOTS < min_auto_shots {
        min_auto_shots
    } else {
        DEFAULT_SAMPLE_CHUNK_SHOTS
    }
}

/// The quotient, rounded up.
pub fn ceil_div_u64(numerator: u64, denominator: u64) -> (r: Result<u64>)
    ensures
        match r {
            Ok(q) => denominator > 0 && q * denominator >= numerator && (q == 0 || (q - 1)
                * denominator < numerator),
            Err(e) => denominator == 0 && e@ == "division by zero in chunk sizing"@,
        },
{
    if denominator == 0 {
        return Err(TicitError::new("division by zero in chunk sizing"));
    }
    let q: u64 = numerator / denominator;
    let rem: u64 = numerator % denominator;
    assert(numerator == denominator * q + rem && rem < denominator) by (nonlinear_arith)
        requires
            denominator > 0,
            q == numerator / denominator,
            rem == numerator % denominator,
    ;
    if rem == 0 {
        assert(q * denominator >= numerator && (q == 0 || (q - 1) * denominator < numerator))
            by (nonlinear_arith)
            requires
                numerator == denominator * q + rem,
                rem == 0,
                denominator > 0,
        ;
        Ok(q)
    } else {
        assert(q < u64::MAX) by (nonlinear_arith)
            requires
                numerator == denominator * q + rem,
                rem > 0,
                denominator > 0,
                numerator <= u64::MAX,
        ;
        let up: u64 = q + 1;
        assert(up * denominator >= numerator && (up - 1) * denominator < numerator)
            by (nonlinear_arith)
            requires
                numerator == denominator * q + rem,
                up == q + 1,
                0 < rem < denominator,
        ;
        Ok(up)
    }
}

/// How many workers receive a chunk.
pub open spec fn workers_for(requested: int, nchunks: int) -> int {
    if nchunks < requested {
        nchunks
    } else {
        requested
    }
}

/// How many workers receive a chunk.
pub fn active_worker_count(requested: usize, nchunks: u64) -> (r: usize)
    ensures
        r == workers_for(requested as int, nchunks as int),
{
    if nchunks < requested as u64 {
        nchunks as usize
    } else {
        requested
    }
}

// ---------------------------------------------------------------------------
// Samplers
// ---------------------------------------------------------------------------
/// What the workers of a sampler share.
#[derive(Debug)]
pub struct SamplerPlan {
    pub options: SamplerOptions,
    pub postselection: bool,
    pub program: FactoredInstructionProgram,
    pub observable_records: Vec<Vec<Vec<i32>>>,
    pub retained_observable_records: Vec<Vec<i32>>,
    pub retained_output_records: Vec<Vec<i32>>,
    pub info: SamplerInfo,
    pub expression_plan: PresampledExpressionPlan,
}

/// The state of one worker.
#[derive(Debug)]
pub struct BatchWorker<A> {
    pub tally: SampleTally,
    pub samples: PackedPresampledExogenous,
    pub expression_block: PresampledExpressionBlock,
    pub runtime: BatchFactoredExecutorState<A>,
    pub observable_words: Vec<u64>,
    pub postselection_scratch: BatchDetectorPostselectionScratch,
}

/// A program prepared for repeated sampling.
#[derive(Debug)]
pub struct Sampler<A> {
    pub plan: SamplerPlan,
    pub workers: Vec<BatchWorker<A>>,
}

/// A program with this chunk and block size can be sampled.
pub open spec fn preparable(program: &FactoredInstructionProgram, chunk: int, batch: int) -> bool {
    &&& batch > 0
    &&& samplable(program, chunk, batch)
    &&& samplable(program, 1, 1)
    &&& single_assignment(program)
    &&& program.nrecords < i32::MAX
    &&& program.instructions@.len() * words_for_bits(batch) <= usize::MAX
}

/// Every observable record is retained.
pub open spec fn retains(groups: Seq<Vec<i32>>, observables: Seq<Vec<Vec<i32>>>) -> bool {
    &&& forall|o: int, g: int, q: i32|
        0 <= o < observables.len() && 0 <= g < observables[o]@.len()
            && #[trigger] observables[o]@[g]@.contains(q) ==> retained_by(groups, q)
    &&& forall|h: int| 0 <= h < groups.len() ==> is_group(observables, (#[trigger] groups[h])@)
}

/// The list is a group of some observable.
pub open spec fn is_group(observables: Seq<Vec<Vec<i32>>>, list: Seq<i32>) -> bool {
    exists|o: int, g: int|
        0 <= o < observables.len() && 0 <= g < observables[o]@.len() && (
        #[trigger] observables[o]@[g])@ == list
}

/// The groups hold every record.
pub open spec fn retains_all(groups: Seq<Vec<i32>>, nrecords: int) -> bool {
    &&& groups.len() == 1
    &&& groups[0]@.len() == nrecords
    &&& forall|q: int| 0 <= q < nrecords ==> #[trigger] groups[0]@[q] == q + 1
}

impl SamplerPlan {
    pub open spec fn wf(&self) -> bool {
        &&& preparable(
            &self.program,
            self.options.sample_chunk_shots as int,
            self.options.batch_size as int,
        )
        &&& self.options.sample_chunk_shots > 0
        &&& self.options.threads > 0
        &&& reset_refusal(&self.program) is None
        &&& planned(&self.program, self.expression_plan)
        &&& self.postselection == self.program.postselects()
        &&& self.postselection ==> detectors_in_range(&self.program)
        &&& retains(self.retained_observable_records@, self.observable_records@)
        &&& retains_all(self.retained_output_records@, self.program.nrecords as int)
        &&& self.observable_records@.len() * words_for_bits(self.options.batch_size as int)
            <= usize::MAX
    }

    /// The metadata fits the program and the options.
    pub open spec fn described(&self, observable: usize, includes: usize, backend: &'static str) -> bool {
        self.info == (SamplerInfo {
            qubits: self.program.n,
            measurement_records: self.program.nrecords,
            detectors: self.program.ndetectors,
            observables: includes,
            expectation_values: self.program.nexpvals,
            observable,
            max_active_qubits: self.program.max_k,
            batch_size: self.options.batch_size,
            sample_chunk_shots: self.options.sample_chunk_shots,
            threads: self.options.threads,
            active_components: self.program.use_active_components,
            detector_postselection: self.postselection,
            cpu_backend: backend,
        })
    }
}

impl<A: Copy> BatchWorker<A> {
    /// The worker was made for the plan.
    pub open spec fn serves(&self, plan: &SamplerPlan) -> bool {
        &&& self.samples.prepared_for(&plan.program)
        &&& self.runtime.batches == plan.options.batch_size
        &&& self.runtime.dense_shot_major_active
        &&& self.tally.observable_ones@.len() == plan.observable_records@.len()
    }
}

/// Why the options do not fit the program, if they do not.
pub open spec fn option_refusal(input: SamplingInput, options: SamplerOptions) -> Option<Seq<char>> {
    if options.normalize_syndromes && (options.expected_detectors@.len() > 0
        || options.expected_observables@.len() > 0) {
        Some(
            "normalize_syndromes cannot be combined with expected_detectors or expected_observables"@,
        )
    } else if options.expected_detectors@.len() > 0 && options.expected_detectors@.len()
        != input.program.ndetectors {
        Some(
            "expected_detectors has length "@ + decimal(options.expected_detectors@.len())
                + ", expected "@ + decimal(input.program.ndetectors as nat),
        )
    } else if options.expected_observables@.len() > 0 && options.expected_observables@.len()
        != input.observable_includes {
        Some(
            "expected_observables has length "@ + decimal(options.expected_observables@.len())
                + ", expected "@ + decimal(input.observable_includes as nat),
        )
    } else {
        None
    }
}

fn length_error(name: &str, length: usize, expected: usize) -> (r: TicitError)
    ensures
        r is Message,
        r@ == name@ + decimal(length as nat) + ", expected "@ + decimal(expected as nat),
{
    let mut text: String = name.to_owned();
    push_decimal(&mut text, length as u64);
    text.append(", expected ");
    push_decimal(&mut text, expected as u64);
    TicitError::with_text(text)
}

/// Refuses options that do not fit the program.
pub fn check_options(input: &SamplingInput, options: &SamplerOptions) -> (r: Result<()>)
    ensures
        match r {
            Ok(_) => option_refusal(*input, *options) is None,
            Err(e) => option_refusal(*input, *options) == Some(e@),
        },
{
    let detectors: usize = options.expected_detectors.len();
    let observables: usize = options.expected_observables.len();
    if options.normalize_syndromes && (detectors > 0 || observables > 0) {
        return Err(
            TicitError::new(
                "normalize_syndromes cannot be combined with expected_detectors or expected_observables",
            ),
        );
    }
    if detectors > 0 && detectors != input.program.ndetectors {
        return Err(
            length_error("expected_detectors has length ", detectors, input.program.ndetectors),
        );
    }
    if observables > 0 && observables != input.observable_includes {
        return Err(
            length_error(
                "expected_observables has length ",
                observables,
                input.observable_includes,
            ),
        );
    }
    Ok(())
}

/// Shots of one block.
pub open spec fn batch_of(program: &FactoredInstructionProgram, options: SamplerOptions) -> int {
    if options.batch_size > 0 {
        options.batch_size as int
    } else {
        default_batches(program.max_k as int)
    }
}

/// The options with every automatic value filled in.
pub open spec fn settled<A, K: ActiveKernels<A>>(
    k: &K,
    input: SamplingInput,
    given: SamplerOptions,
    options: SamplerOptions,
) -> bool {
    &&& options.observable == given.observable
    &&& options.postselection_mask == given.postselection_mask
    &&& options.normalize_syndromes == given.normalize_syndromes
    &&& if given.normalize_syndromes {
        refers::<A, K>(
            k,
            &input.program,
            input.observable_records@,
            (ReferenceSample {
                detectors: options.expected_detectors,
                observables: options.expected_observables,
            }),
        )
    } else {
        &&& options.expected_detectors == given.expected_detectors
        &&& options.expected_observables == given.expected_observables
    }
    &&& options.batch_size == batch_of(&input.program, given)
    &&& options.sample_chunk_shots == chunk_size(
        given.sample_chunk_shots as int,
        batch_of(&input.program, given),
    )
    &&& options.threads == if given.threads == 0 {
        1
    } else {
        given.threads as int
    }
}

/// Why a program cannot be prepared, beyond its options.
pub open spec fn preparation_refused<A, K: ActiveKernels<A>>(
    k: &K,
    input: SamplingInput,
    given: SamplerOptions,
    text: Seq<char>,
) -> bool {
    ||| given.normalize_syndromes && reference_refused::<A, K>(
        k,
        &input.program,
        input.observable_records@,
        text,
    )
    ||| given.batch_size == 0 && dimension(input.program.max_k as int) > usize::MAX && text
        == "active state width is out of range"@
    ||| text == "exogenous condition exceeds program symbol table"@ && exists|c: i32| #[trigger]
        is_exogenous(&input.program, c) && outside(
            c,
            words_for_bits(input.program.nsymbols as int),
        )
    ||| reset_refusal(&input.program) == Some(text)
    ||| input.program.postselects() && !detectors_in_range(&input.program) && text
        == "detector references an out-of-range measurement record"@
}

/// The interned expressions of the program.
fn prepare_expression_plan(program: &FactoredInstructionProgram) -> (r: Result<PresampledExpressionPlan>)
    requires
        program.wf(),
        crate::exogenous::exogenous_positive(program),
    ensures
        match r {
            Ok(plan) => planned(program, plan),
            Err(e) => e@ == "exogenous condition exceeds program symbol table"@ && exists|c: i32|
             #[trigger]
                is_exogenous(program, c) && outside(c, words_for_bits(program.nsymbols as int)),
        },
{
    let mut samples: PackedPresampledExogenous = PackedPresampledExogenous::new();
    match prepare_presampled_exogenous_packed(&mut samples, program) {
        Ok(_) => {},
        Err(e) => {
            return Err(e);
        },
    }
    let mut plan: PresampledExpressionPlan = PresampledExpressionPlan::new();
    match prepare_presampled_expression_plan(&mut plan, program, &samples) {
        Ok(_) => Ok(plan),
        Err(e) => Err(e),
    }
}

/// The records of all observables, group by group.
fn flatten_groups(observables: &Vec<Vec<Vec<i32>>>) -> (r: Vec<Vec<i32>>)
    ensures
        retains(r@, observables@),
{
    let mut out: Vec<Vec<i32>> = Vec::new();
    let mut o: usize = 0;
    while o < observables.len()
        invariant
            o <= observables@.len(),
            forall|p: int, g: int, q: i32|
                0 <= p < o && 0 <= g < observables@[p]@.len()
                    && #[trigger] observables@[p]@[g]@.contains(q) ==> retained_by(out@, q),
            forall|h: int| 0 <= h < out@.len() ==> is_group(observables@, (#[trigger] out@[h])@),
        decreases observables@.len() - o,
    {
        let mut g: usize = 0;
        while g < observables[o as usize].len()
            invariant
                o < observables@.len(),
                g <= observables@[o as int]@.len(),
                forall|p: int, f: int, q: i32|
                    0 <= p < o && 0 <= f < observables@[p]@.len()
                        && #[trigger] observables@[p]@[f]@.contains(q) ==> retained_by(out@, q),
                forall|f: int, q: i32|
                    0 <= f < g && #[trigger] observables@[o as int]@[f]@.contains(q)
                        ==> retained_by(out@, q),
                forall|h: int|
                    0 <= h < out@.len() ==> is_group(observables@, (#[trigger] out@[h])@),
            decreases observables@[o as int]@.len() - g,
        {
            let ghost before = out@;
            out.push(copy_list(&observables[o][g]));
            proof {
                let at = before.len() as int;
                assert(out@[at]@ == observables@[o as int]@[g as int]@);
                assert forall|q: i32| #[trigger] retained_by(before, q) implies retained_by(out@, q) by {
                    let h = choose|h: int| 0 <= h < before.len() && (#[trigger] before[h])@.contains(q);
                    assert(out@[h]@.contains(q));
                }
                assert forall|f: int, q: i32|
                    0 <= f < g + 1 && #[trigger] observables@[o as int]@[f]@.contains(q) implies
                    retained_by(out@, q) by {
                    if f < g {
                        assert(retained_by(before, q));
                    } else {
                        assert(out@[at]@.contains(q));
                    }
                }
                assert forall|h: int| 0 <= h < out@.len() implies is_group(
                    observables@,
                    (#[trigger] out@[h])@,
                ) by {
                    if h < at {
                        assert(out@[h] == before[h]);
                    }
                }
            }
            g += 1;
        }
        o += 1;
    }
    out
}

/// One group with every record.
fn all_records(nrecords: usize) -> (r: Vec<Vec<i32>>)
    requires
        nrecords < i32::MAX,
    ensures
        retains_all(r@, nrecords as int),
{
    let mut list: Vec<i32> = Vec::new();
    let mut q: usize = 0;
    while q < nrecords
        invariant
            q <= nrecords,
            nrecords < i32::MAX,
            list@.len() == q,
            forall|p: int| 0 <= p < q ==> #[trigger] list@[p] == p + 1,
        decreases nrecords - q,
    {
        q += 1;
        list.push(q as i32);
    }
    let mut out: Vec<Vec<i32>> = Vec::new();
    out.push(list);
    out
}

impl BatchDetectorPostselectionScratch {
    /// Scratch space for no shots.
    fn empty() -> (r: Self)
        ensures
            r.dead_bits@.len() == 0,
            r.keep_bits@.len() == 0,
            r.expression_words@.len() == 0,
            r.condition_last_use_by_index@.len() == 0,
            r.record_last_use_by_index@.len() == 0,
            r.dead_count == 0,
    {
        BatchDetectorPostselectionScratch {
            dead_bits: Vec::new(),
            keep_bits: Vec::new(),
            expression_words: Vec::new(),
            condition_last_use_by_index: Vec::new(),
            record_last_use_by_index: Vec::new(),
            dead_count: 0,
        }
    }
}

impl<A: Copy> BatchWorker<A> {
    /// A worker for a plan.
    fn new(
        plan: &SamplerPlan,
        zero: A,
        one: A,
    ) -> (r: Result<BatchWorker<A>>)
        requires
            preparable(
                &plan.program,
                plan.options.sample_chunk_shots as int,
                plan.options.batch_size as int,
            ),
            retains_all(plan.retained_output_records@, plan.program.nrecords as int),
            plan.postselection == plan.program.postselects(),
        ensures
            match r {
                Ok(worker) => {
                    &&& worker.serves(plan)
                    &&& reset_refusal(&plan.program) is None
                    &&& plan.postselection ==> detectors_in_range(&plan.program)
                },
                Err(e) => {
                    ||| e@ == "exogenous condition exceeds program symbol table"@ && exists|c: i32|
                     #[trigger]
                        is_exogenous(&plan.program, c) && outside(
                            c,
                            words_for_bits(plan.program.nsymbols as int),
                        )
                    ||| reset_refusal(&plan.program) == Some(e@)
                    ||| plan.program.postselects() && !detectors_in_range(&plan.program) && e@
                        == "detector references an out-of-range measurement record"@
                },
            },
    {
        let mut runtime: BatchFactoredExecutorState<A> = match BatchFactoredExecutorState::new(
            &plan.program,
            plan.options.batch_size,
            1,
            zero,
            one,
        ) {
            Ok(runtime) => runtime,
            Err(e) => {
                return Err(e);
            },
        };
        runtime.dense_shot_major_active = true;
        let mut samples: PackedPresampledExogenous = PackedPresampledExogenous::new();
        match prepare_presampled_exogenous_packed(&mut samples, &plan.program) {
            Ok(_) => {},
            Err(e) => {
                return Err(e);
            },
        }
        let mut scratch: BatchDetectorPostselectionScratch =
            BatchDetectorPostselectionScratch::empty();
        if plan.postselection {
            let options: BatchDetectorPostselectionOptions = BatchDetectorPostselectionOptions {
                mask_dead_shots_min_fraction_denominator: POSTSELECTION_COMPACTION_DENOMINATOR,
                retained_record_uses: Some(plan.retained_output_records.as_slice()),
                expected_detectors: plan.options.expected_detectors.as_slice(),
            };
            proof {
                lemma_all_in_range(plan.retained_output_records@, plan.program.nrecords as int);
                assert(options.retained() == plan.retained_output_records@);
            }
            match prepare_batch_detector_postselection_scratch_for_program(
                &mut scratch,
                &runtime,
                &plan.program,
                &options,
            ) {
                Ok(_) => {},
                Err(e) => {
                    return Err(e);
                },
            }
        }
        let tally: SampleTally = SampleTally {
            counts: SampleCounts { shots: 0, discarded: 0, accepted: 0, logical_errors: 0 },
            measurements: Vec::new(),
            detectors: Vec::new(),
            observables: Vec::new(),
            observable_ones: filled_list(plan.observable_records.len(), 0u64),
            exp_vals: Vec::new(),
        };
        Ok(
            BatchWorker {
                tally,
                samples,
                expression_block: PresampledExpressionBlock::new(),
                runtime,
                observable_words: Vec::new(),
                postselection_scratch: scratch,
            },
        )
    }
}

/// All records are in range.
pub proof fn lemma_all_in_range(groups: Seq<Vec<i32>>, nrecords: int)
    requires
        retains_all(groups, nrecords),
        nrecords <= i32::MAX,
    ensures
        retained_in_range(groups, nrecords),
        forall|q: int| 0 < q <= nrecords ==> #[trigger] retained_by(groups, q as i32),
{
    assert forall|g: int| 0 <= g < groups.len() implies list_in_range(
        (#[trigger] groups[g])@,
        nrecords,
    ) by {
        assert forall|t: int| 0 <= t < groups[g]@.len() implies 0 < #[trigger] groups[g]@[t] <= nrecords by {
            assert(groups[0]@[t] == t + 1);
        }
    }
    assert forall|q: int| 0 < q <= nrecords implies #[trigger] retained_by(groups, q as i32) by {
        assert(groups[0]@[q - 1] == q);
        assert(groups[0]@.contains(q as i32));
    }
}

/// A planned program of whose observables only the selected one has records.
pub fn make_circuit_sampling_input(
    program: FactoredInstructionProgram,
    logical_records: Vec<Vec<i32>>,
    observable: usize,
    observable_includes: usize,
) -> (r: SamplingInput)
    ensures
        r.program == program,
        r.observable == observable,
        r.observable_includes == observable_includes,
        r.observable_records@.len() == observable_includes,
        forall|o: int|
            0 <= o < observable_includes ==> (#[trigger] r.observable_records@[o])@ == if o == observable {
                logical_records@
            } else {
                Seq::empty()
            },
{
    let mut observable_records: Vec<Vec<Vec<i32>>> = Vec::new();
    let mut o: usize = 0;
    while o < observable_includes
        invariant
            o <= observable_includes,
            observable_records@.len() == o,
            forall|j: int| 0 <= j < o ==> (#[trigger] observable_records@[j])@ == Seq::<Vec<i32>>::empty(),
        decreases observable_includes - o,
    {
        observable_records.push(Vec::new());
        o += 1;
    }
    if observable < observable_includes {
        observable_records.set(observable, logical_records);
    }
    SamplingInput { program, observable_records, observable, observable_includes }
}

impl<A: Copy> Sampler<A> {
    /// What is known of the sampler.
    pub fn info(&self) -> (r: SamplerInfo)
        ensures
            r == self.plan.info,
    {
        self.plan.info
    }

    /// Prepares a planned program for sampling.
    #[verifier::rlimit(40)]
    pub fn from_input<K: ActiveKernels<A>>(
        k: &K,
        input: SamplingInput,
        options: SamplerOptions,
        cpu_backend: &'static str,
    ) -> (r: Result<Sampler<A>>)
        requires
            lawful::<A, K>(k),
            preparable(
                &input.program,
                chunk_size(
                    options.sample_chunk_shots as int,
                    batch_of(&input.program, options),
                ),
                batch_of(&input.program, options),
            ),
            input.observable_records@.len() == input.observable_includes,
            input.observable_records@.len() * words_for_bits(batch_of(&input.program, options))
                <= usize::MAX,
        ensures
            match r {
                Ok(sampler) => {
                    &&& option_refusal(input, options) is None
                    &&& sampler.plan.wf()
                    &&& sampler.plan.program == input.program
                    &&& sampler.plan.observable_records == input.observable_records
                    &&& settled::<A, K>(k, input, options, sampler.plan.options)
                    &&& sampler.plan.described(
                        input.observable,
                        input.observable_includes,
                        cpu_backend,
                    )
                    &&& sampler.workers@.len() == sampler.plan.options.threads
                    &&& forall|w: int|
                        0 <= w < sampler.workers@.len() ==> (
                        #[trigger] sampler.workers@[w]).serves(&sampler.plan)
                },
                Err(e) => {
                    ||| option_refusal(input, options) == Some(e@)
                    ||| option_refusal(input, options) is None && preparation_refused::<A, K>(
                        k,
                        input,
                        options,
                        e@,
                    )
                },
            },
    {
        match check_options(&input, &options) {
            Ok(_) => {},
            Err(e) => {
                return Err(e);
            },
        }
        let ghost given = options;
        let ghost before = input;
        let mut settled_options: SamplerOptions = options;
        if settled_options.normalize_syndromes {
            match reference_sample_for_program(
                k,
                &input.program,
                input.observable_records.as_slice(),
            ) {
                Ok(reference) => {
                    settled_options.expected_detectors = reference.detectors;
                    settled_options.expected_observables = reference.observables;
                    assert(reference == (ReferenceSample {
                        detectors: settled_options.expected_detectors,
                        observables: settled_options.expected_observables,
                    }));
                },
                Err(e) => {
                    return Err(e);
                },
            }
        }
        if settled_options.batch_size == 0 {
            match default_batch_count(input.program.max_k) {
                Ok(count) => {
                    settled_options.batch_size = count;
                },
                Err(e) => {
                    return Err(e);
                },
            }
        }
        settled_options.sample_chunk_shots = sample_chunk_or_default(
            settled_options.sample_chunk_shots,
            settled_options.batch_size,
        );
        if settled_options.threads == 0 {
            settled_options.threads = 1;
        }
        let postselection: bool = has_postselection(&input.program);
        let expression_plan: PresampledExpressionPlan = match prepare_expression_plan(&input.program) {
            Ok(plan) => plan,
            Err(e) => {
                return Err(e);
            },
        };
        let info: SamplerInfo = SamplerInfo {
            qubits: input.program.n,
            measurement_records: input.program.nrecords,
            detectors: input.program.ndetectors,
            observables: input.observable_includes,
            expectation_values: input.program.nexpvals,
            observable: input.observable,
            max_active_qubits: input.program.max_k,
            batch_size: settled_options.batch_size,
            sample_chunk_shots: settled_options.sample_chunk_shots,
            threads: settled_options.threads,
            active_components: input.program.use_active_components,
            detector_postselection: postselection,
            cpu_backend,
        };
        let retained_observable_records: Vec<Vec<i32>> = flatten_groups(&input.observable_records);
        let retained_output_records: Vec<Vec<i32>> = all_records(input.program.nrecords);
        let threads: usize = settled_options.threads;
        let plan: SamplerPlan = SamplerPlan {
            options: settled_options,
            postselection,
            program: input.program,
            observable_records: input.observable_records,
            retained_observable_records,
            retained_output_records,
            info,
            expression_plan,
        };
        let zero: A = k.zero();
        let one: A = k.one();
        let mut workers: Vec<BatchWorker<A>> = Vec::new();
        let mut w: usize = 0;
        while w < threads
            invariant
                w <= threads,
                workers@.len() == w,
                plan.program == before.program,
                before == input,
                given == options,
                plan.postselection == plan.program.postselects(),
                option_refusal(before, given) is None,
                preparable(
                    &plan.program,
                    plan.options.sample_chunk_shots as int,
                    plan.options.batch_size as int,
                ),
                retains_all(plan.retained_output_records@, plan.program.nrecords as int),
                w > 0 ==> reset_refusal(&plan.program) is None,
                w > 0 && plan.postselection ==> detectors_in_range(&plan.program),
                forall|v: int| 0 <= v < w ==> (#[trigger] workers@[v]).serves(&plan),
            decreases threads - w,
        {
            match BatchWorker::new(&plan, zero, one) {
                Ok(worker) => {
                    workers.push(worker);
                },
                Err(e) => {
                    return Err(e);
                },
            }
            w += 1;
        }
        Ok(Sampler { plan, workers })
    }
}

} // verus!
