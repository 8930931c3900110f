//! The noiseless reference: what detectors and observables give where no noise
//! fires.
use vstd::prelude::*;
use crate::bits::words_for_bits;
use crate::driver::{
    execute_batch_in_place_expressions, fresh, lemma_residuals, lemma_rewound, lemma_run_counts,
    lemma_samplable_executes, lemma_stops_fails, planned, samplable, untabled,
};
use crate::errors::Result;
use crate::executor::{filled_list, reset_batch_executor, reset_refusal, BatchFactoredExecutorState};
use crate::exogenous::{is_exogenous, outside, prepare_presampled_exogenous_packed, PackedPresampledExogenous};
use crate::kernels::{lawful, one_of, zero_of, ActiveKernels};
use crate::model::{run, Block};
use crate::outputs::{fill_observable_words, groups_parity, observables_exist};
use crate::planes::plane_bit;
use crate::presampled_expression::{
    applied_conditions, chain_bit, evaluate_presampled_expression_block, expression_refusal, nth,
    parent_chosen, parent_of, plans_program, prepare_presampled_expression_plan, shot_valuation,
    PresampledExpression, PresampledExpressionBlock, PresampledExpressionPlan,
};
use crate::program::FactoredInstructionProgram;
use crate::runs::stops_at;
use crate::signs::{lemma_has_row, table_bits};
use crate::symbolic::lemma_xor_of_false;

verus! {

broadcast use crate::bits::group_word_bits;

/// Detector and observable bits without noise.
#[derive(Clone, Debug, PartialEq, Eq)]
pub struct ReferenceSample {
    /// One bit per detector.
    pub detectors: Vec<u8>,
    /// One bit per observable, unused ones included.
    pub observables: Vec<u8>,
}

impl Default for ReferenceSample {
    fn default() -> (r: Self)
        ensures
            r.detectors@.len() == 0,
            r.observables@.len() == 0,
    {
        ReferenceSample { detectors: Vec::new(), observables: Vec::new() }
    }
}

/// The table of one shot in which no noise fires: every block expression is its
/// constant.
pub open spec fn quiet_table(plan: PresampledExpressionPlan) -> spec_fn(int, int) -> bool {
    |e: int, t: int| 0 <= e < plan.block_expressions@.len() && t == 0 && plan.block_expressions@[e].constant
}

/// The block of the one noiseless shot at the start.
pub open spec fn quiet_start<A, K: ActiveKernels<A>>(
    k: &K,
    program: &FactoredInstructionProgram,
) -> Block<A> {
    fresh(program, true, true, 1, 1, 0, zero_of::<A, K>(k), one_of::<A, K>(k))
}

/// What the noiseless shot ends as.
pub open spec fn quiet_run<A, K: ActiveKernels<A>>(
    k: &K,
    program: &FactoredInstructionProgram,
    plan: PresampledExpressionPlan,
) -> crate::model::Outcome<A> {
    run(
        k,
        quiet_table(plan),
        plan,
        program,
        0,
        program.instructions@.len() as int,
        quiet_start(k, program),
    )
}

pub open spec fn bit_byte(bit: bool) -> u8 {
    if bit {
        1
    } else {
        0
    }
}

/// The sample holds the detectors and observables of the noiseless shot.
pub open spec fn is_reference<A, K: ActiveKernels<A>>(
    k: &K,
    program: &FactoredInstructionProgram,
    observables: Seq<Vec<Vec<i32>>>,
    plan: PresampledExpressionPlan,
    sample: ReferenceSample,
) -> bool {
    &&& planned(program, plan)
    &&& observables_exist(observables, program.nrecords as int)
    &&& match quiet_run(k, program, plan) {
        Ok(b) => {
            &&& sample.detectors@ == Seq::new(
                program.ndetectors as nat,
                |d: int| bit_byte(b.shots[0].detectors[d]),
            )
            &&& sample.observables@ == Seq::new(
                observables.len(),
                |o: int|
                    bit_byte(
                        groups_parity(
                            b.shots[0].records,
                            observables[o]@,
                            observables[o]@.len() as int,
                        ),
                    ),
            )
        },
        Err(_) => false,
    }
}

/// The sample is the reference of the program. A program without detectors and
/// observables is not run.
pub open spec fn refers<A, K: ActiveKernels<A>>(
    k: &K,
    program: &FactoredInstructionProgram,
    observables: Seq<Vec<Vec<i32>>>,
    sample: ReferenceSample,
) -> bool {
    if program.ndetectors == 0 && observables.len() == 0 {
        sample.detectors@.len() == 0 && sample.observables@.len() == 0
    } else {
        exists|plan: PresampledExpressionPlan| #[trigger]
            is_reference::<A, K>(k, program, observables, plan, sample)
    }
}

/// Why there is no reference sample.
pub open spec fn reference_refused<A, K: ActiveKernels<A>>(
    k: &K,
    program: &FactoredInstructionProgram,
    observables: Seq<Vec<Vec<i32>>>,
    text: Seq<char>,
) -> bool {
    ||| text == "exogenous condition exceeds program symbol table"@ && exists|c: i32| #[trigger]
        is_exogenous(program, c) && outside(c, words_for_bits(program.nsymbols as int))
    ||| exists|plan: PresampledExpressionPlan, words: Seq<u64>, b: int| #[trigger]
        untabled(program, plan, words, b) == Some(text)
    ||| reset_refusal(program) == Some(text)
    ||| !observables_exist(observables, program.nrecords as int) && text
        == "observable references an out-of-range measurement record"@
    ||| exists|plan: PresampledExpressionPlan, j: int|
        planned(program, plan) && quiet_run::<A, K>(k, program, plan) is Err && #[trigger] stops_at(
            k,
            quiet_table(plan),
            plan,
            program,
            0,
            j,
            quiet_start(k, program),
            text,
        )
}

/// Without noise, a chain of parents gives the constant.
proof fn lemma_quiet_chain(
    blocks: Seq<PresampledExpression>,
    samples: PackedPresampledExogenous,
    e: int,
    t: int,
)
    requires
        0 <= e < blocks.len(),
        forall|b: int| 0 <= b < blocks.len() ==> #[trigger] parent_chosen(blocks, b),
        forall|b: int|
            0 <= b < blocks.len() ==> expression_refusal(
                blocks,
                samples.nsymbols as int,
                #[trigger] nth(blocks, b).1,
            ) is None,
        forall|c: i32| 0 < c <= samples.nsymbols ==> !#[trigger] samples.sample_bit(c, t),
    ensures
        chain_bit(blocks, samples, e, t) == (blocks[e].constant && t < samples.nshots),
    decreases e,
{
    assert(parent_chosen(blocks, e));
    assert(nth(blocks, e).1 == e);
    assert(expression_refusal(blocks, samples.nsymbols as int, e) is None);
    let conditions = applied_conditions(blocks[e]);
    let v = shot_valuation(samples, t);
    assert forall|q: int| 0 <= q < conditions.len() implies !v(#[trigger] conditions[q]) by {
        assert(0 < conditions[q] <= samples.nsymbols);
    }
    lemma_xor_of_false(conditions, v);
    match parent_of(blocks[e]) {
        Some(p) => {
            lemma_quiet_chain(blocks, samples, p, t);
        },
        None => {},
    }
}

/// The table of samples without a single hit.
fn quiet_samples(samples: &mut PackedPresampledExogenous, program: &FactoredInstructionProgram)
    requires
        old(samples).prepared_for(program),
        program.nsymbols < i32::MAX,
        old(samples).sparse_condition_words@.len() == old(
            samples,
        ).sparse_condition_template_words@.len(),
    ensures
        final(samples).prepared_for(program),
        final(samples).wf(),
        final(samples).filled(),
        final(samples).nshots == 1,
        final(samples).shot_words == 1,
        final(samples).exogenous_assigned_words == old(samples).exogenous_assigned_words,
        forall|c: i32, t: int|
            0 < c <= program.nsymbols ==> !#[trigger] final(samples).sample_bit(c, t),
{
    let words: usize = samples.sparse_condition_words.len();
    samples.nshots = 1;
    samples.shot_words = 1;
    samples.value_words = filled_list(program.nsymbols, 0u64);
    samples.sparse_condition_words = filled_list(words, 0u64);
    samples.sparse_hit_offsets = filled_list(program.nsymbols + 1, 0usize);
    samples.sparse_hit_shots = Vec::new();
    proof {
        assert forall|c: i32, t: int| 0 < c <= program.nsymbols implies !#[trigger] samples.sample_bit(
            c,
            t,
        ) by {
            crate::executor::lemma_clear_row(
                samples.sparse_condition_words@,
                crate::bits::symbol_bit(c as int),
            );
            crate::executor::lemma_clear_plane(
                samples.value_words@,
                1,
                program.nsymbols as int,
                c - 1,
                t,
            );
        }
    }
}

/// Runs one shot without noise, and reads its detectors and observables. Branches
/// that the state leaves open are drawn with a fixed seed.
#[verifier::rlimit(60)]
pub fn reference_sample_for_program<A: Copy, K: ActiveKernels<A>>(
    k: &K,
    program: &FactoredInstructionProgram,
    observable_records: &[Vec<Vec<i32>>],
) -> (r: Result<ReferenceSample>)
    requires
        lawful::<A, K>(k),
        samplable(program, 1, 1),
    ensures
        match r {
            Ok(sample) => refers::<A, K>(k, program, observable_records@, sample),
            Err(e) => reference_refused::<A, K>(k, program, observable_records@, e@),
        },
{
    if program.ndetectors == 0 && observable_records.len() == 0 {
        return Ok(ReferenceSample { detectors: Vec::new(), observables: Vec::new() });
    }
    let mut samples: PackedPresampledExogenous = PackedPresampledExogenous::new();
    match prepare_presampled_exogenous_packed(&mut samples, program) {
        Ok(_) => {},
        Err(e) => {
            return Err(e);
        },
    }
    quiet_samples(&mut samples, program);
    let mut plan: PresampledExpressionPlan = PresampledExpressionPlan::new();
    match prepare_presampled_expression_plan(&mut plan, program, &samples) {
        Ok(_) => {},
        Err(e) => {
            return Err(e);
        },
    }
    let mut block: PresampledExpressionBlock = PresampledExpressionBlock::new();
    match evaluate_presampled_expression_block(&mut block, &plan, &samples) {
        Ok(_) => {},
        Err(e) => {
            proof {
                let words = samples.exogenous_assigned_words@;
                let blocks = plan.block_expressions@;
                let b = choose|b: int|
                    0 <= b < blocks.len() && expression_refusal(
                        blocks,
                        samples.nsymbols as int,
                        #[trigger] nth(blocks, b).1,
                    ) == Some(e@);
                assert(untabled(program, plan, words, b) == Some(e@));
            }
            return Err(e);
        },
    }
    proof {
        lemma_quiet_table(plan, program, samples, block);
        assert(planned(program, plan));
        lemma_residuals(plan, program, samples.exogenous_assigned_words@);
        lemma_samplable_executes(program, 1, 1, 1, 1);
    }
    let zero: A = k.zero();
    let one: A = k.one();
    let mut runtime: BatchFactoredExecutorState<A> = match BatchFactoredExecutorState::new(
        program,
        1,
        1,
        zero,
        one,
    ) {
        Ok(runtime) => runtime,
        Err(e) => {
            return Err(e);
        },
    };
    runtime.dense_shot_major_active = true;
    runtime.store_detector_records = true;
    match reset_batch_executor(&mut runtime, program, 1, zero, one) {
        Ok(_) => {},
        Err(e) => {
            return Err(e);
        },
    }
    let ghost started = runtime;
    let ghost n = program.instructions@.len() as int;
    let ghost base = table_bits(block.expression_words@, block.shot_words as int);
    proof {
        lemma_rewound(&runtime, program, 1, zero, one, 0);
        assert(started.block(0) == quiet_start::<A, K>(k, program));
    }
    match execute_batch_in_place_expressions(k, &mut runtime, program, &plan, &block, 0) {
        Ok(_) => {},
        Err(e) => {
            proof {
                let j = choose|j: int| #[trigger]
                    stops_at(k, base, plan, program, 0, j, started.block(0), e@);
                lemma_stops_fails(k, base, plan, program, j, started.block(0), e@);
            }
            return Err(e);
        },
    }
    let ghost b = runtime.block(0);
    proof {
        lemma_run_counts(k, base, plan, program, 0, n, started.block(0));
        assert(b.shots[0] == runtime.shot(0, 0));
    }
    let count: usize = program.ndetectors;
    let stride: usize = runtime.batch_words;
    assert(stride == 1);
    let mut detectors: Vec<u8> = Vec::new();
    let mut d: usize = 0;
    while d < count
        invariant
            d <= count,
            count == runtime.ndetectors,
            runtime.ready(),
            runtime.batch_words == 1,
            runtime.store_detector_records,
            runtime.active_shots == 1,
            b == runtime.block(0),
            b.shots[0] == runtime.shot(0, 0),
            detectors@.len() == d,
            forall|q: int| 0 <= q < d ==> #[trigger] detectors@[q] == bit_byte(b.shots[0].detectors[q]),
        decreases count - d,
    {
        let bit: bool = runtime.detector_words[d] & 1 == 1;
        proof {
            assert(runtime.detector_bit(d + 1, 0) == word_one(runtime.detector_words@[d as int])) by {
                assert(d * 1 + 0 == d);
                lemma_word_one(runtime.detector_words@[d as int]);
            }
            assert(b.shots[0].detectors[d as int] == runtime.detector_bit(d + 1, 0));
        }
        let byte: u8 = if bit {
            1
        } else {
            0
        };
        detectors.push(byte);
        d += 1;
    }
    let mut words: Vec<u64> = Vec::new();
    let total: usize = observable_records.len();
    assert(observable_records@.len() * runtime.batch_words == total) by {
        assert(total * 1 == total);
    }
    match fill_observable_words(&mut words, &runtime, observable_records) {
        Ok(_) => {},
        Err(e) => {
            return Err(e);
        },
    }
    let mut observables: Vec<u8> = Vec::new();
    let mut o: usize = 0;
    while o < total
        invariant
            o <= total,
            total == observable_records@.len(),
            runtime.batch_words == 1,
            runtime.active_shots == 1,
            b.shots[0] == runtime.shot(0, 0),
            words@.len() == total * 1,
            forall|p: int, s: int|
                0 <= p < total && 0 <= s < 1 ==> #[trigger] plane_bit(words@, 1, p, s)
                    == groups_parity(
                    runtime.shot(s, s).records,
                    observable_records@[p]@,
                    observable_records@[p]@.len() as int,
                ),
            observables@.len() == o,
            forall|q: int|
                0 <= q < o ==> #[trigger] observables@[q] == bit_byte(
                    groups_parity(
                        b.shots[0].records,
                        observable_records@[q]@,
                        observable_records@[q]@.len() as int,
                    ),
                ),
        decreases total - o,
    {
        let bit: bool = words[o] & 1 == 1;
        proof {
            assert(plane_bit(words@, 1, o as int, 0) == word_one(words@[o as int])) by {
                assert(o * 1 + 0 == o);
                lemma_word_one(words@[o as int]);
            }
        }
        let byte: u8 = if bit {
            1
        } else {
            0
        };
        observables.push(byte);
        o += 1;
    }
    let sample: ReferenceSample = ReferenceSample { detectors, observables };
    proof {
        assert(sample.detectors@ =~= Seq::new(
            program.ndetectors as nat,
            |d: int| bit_byte(b.shots[0].detectors[d]),
        ));
        assert(sample.observables@ =~= Seq::new(
            observable_records@.len(),
            |o: int|
                bit_byte(
                    groups_parity(
                        b.shots[0].records,
                        observable_records@[o]@,
                        observable_records@[o]@.len() as int,
                    ),
                ),
        ));
        assert(is_reference::<A, K>(k, program, observable_records@, plan, sample));
        assert(refers::<A, K>(k, program, observable_records@, sample));
    }
    Ok(sample)
}

spec fn word_one(w: u64) -> bool {
    w & 1 == 1
}

proof fn lemma_word_one(w: u64)
    ensures
        word_one(w) == crate::bits::word_bit(w, 0),
{
    assert(w >> 0u64 == w) by (bit_vector);
}

/// The evaluated table is the quiet one.
proof fn lemma_quiet_table(
    plan: PresampledExpressionPlan,
    program: &FactoredInstructionProgram,
    samples: PackedPresampledExogenous,
    block: PresampledExpressionBlock,
)
    requires
        plans_program(plan, program, samples.exogenous_assigned_words@),
        samples.nshots == 1,
        samples.shot_words == 1,
        samples.nsymbols == program.nsymbols,
        forall|c: i32, t: int| 0 < c <= program.nsymbols ==> !#[trigger] samples.sample_bit(c, t),
        block.shot_words == 1,
        block.expression_words@.len() == plan.block_expressions@.len() * 1,
        forall|e: int|
            0 <= e < plan.block_expressions@.len() ==> expression_refusal(
                plan.block_expressions@,
                samples.nsymbols as int,
                #[trigger] nth(plan.block_expressions@, e).1,
            ) is None,
        forall|e: int, t: int|
            0 <= e < plan.block_expressions@.len() && 0 <= t < 64 * samples.shot_words
                ==> #[trigger] plane_bit(block.expression_words@, samples.shot_words as int, e, t)
                == chain_bit(plan.block_expressions@, samples, e, t),
    ensures
        table_bits(block.expression_words@, block.shot_words as int) == quiet_table(plan),
{
    let blocks = plan.block_expressions@;
    let words = block.expression_words@;
    let f = table_bits(words, 1);
    let g = quiet_table(plan);
    assert forall|b: int| 0 <= b < blocks.len() implies #[trigger] parent_chosen(blocks, b) by {
        assert(crate::symbolic::canonical(blocks[b].exogenous_conditions@));
    }
    assert forall|e: int, t: int| #[trigger] f(e, t) == g(e, t) by {
        if 0 <= e < blocks.len() && 0 <= t < 64 {
            lemma_has_row(words, 1, blocks.len() as int, e);
            assert(plane_bit(words, 1, e, t) == chain_bit(blocks, samples, e, t));
            lemma_quiet_chain(blocks, samples, e, t);
        }
    }
    assert(f =~= g);
}

} // verus!
