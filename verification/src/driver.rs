//! Whole-batch execution: the instructions of a program in order, block by block.
use vstd::prelude::*;
use crate::bits::{bit_word_count, row_bit, row_bits, symbol_bit, words_for_bits};
use crate::errors::{Result, TicitError};
use crate::executor::{
    component_wf, default_batches, dimension, filled_list, lemma_dimension_grows, program_fits,
    reset_batch_executor, reset_refusal, initial_components_exist, BatchFactoredExecutorState,
};
use crate::exogenous::{
    draws_wf, exogenous_disjoint, exogenous_positive, is_exogenous, marks, outside, presample_exogenous_packed,
    ExogenousDraws, PackedPresampledExogenous,
};
use crate::kernels::{lawful, one_of, zero_of, ActiveKernels};
use crate::model::{
    lemma_run_split, merge_from, merge_one, run, shot_values, sign_at, step, widths, Block, Part,
    Shot,
};
use crate::noise::noise_table;
use crate::planes::plane_bit;
use crate::presampled_expression::{
    bulk_plan, chain_bit, evaluate_presampled_expression_block, expresses, expression_refusal,
    law_parent_deltas_keep_the_value, law_split_keeps_the_value, lemma_selected, nth, plans_program,
    prepare_presampled_expression_plan, same_partial, shot_valuation, PresampledExpressionBlock,
    PresampledExpressionPlan,
};
use crate::program::{FactoredInstruction, FactoredInstructionProgram};
use crate::runs::{
    execute_shot_major_rotation_run, fused, is_whole, law_fused_run_is_the_run, run_stops,
    stops_at, turning_stops,
};
use crate::runtime::{
    component_plan_wf, execute_batch_component_instruction, execute_batch_instruction, ids_fit,
};
use crate::signs::{lemma_has_row, residuals_wf, table_bits, BatchSignSource};
use crate::symbolic::lemma_xor_of_ext;

verus! {

broadcast use crate::bits::group_word_bits;

// ---------------------------------------------------------------------------
// The start of a block
// ---------------------------------------------------------------------------
/// The first basis state of `dim` states.
pub open spec fn ground<A>(dim: int, zero: A, one: A) -> Seq<A> {
    Seq::new(
        dim as nat,
        |b: int|
            if b == 0 {
                one
            } else {
                zero
            },
    )
}

/// The parts of the active state at the start.
pub open spec fn fresh_parts(program: &FactoredInstructionProgram) -> Seq<Part> {
    if program.use_active_components {
        let plan = program.active_component_plan->0;
        Seq::new(
            plan.component_max_k@.len(),
            |j: int|
                Part {
                    k: if j < plan.initial_components {
                        1
                    } else {
                        0
                    },
                    active: j < plan.initial_components,
                    stride: dimension(plan.component_max_k@[j] as int),
                },
        )
    } else {
        seq![
            Part {
                k: program.initial_k as int,
                active: true,
                stride: dimension(program.max_k as int),
            },
        ]
    }
}

/// A shot at the start.
pub open spec fn fresh_shot<A>(
    program: &FactoredInstructionProgram,
    stored: bool,
    sample: int,
    zero: A,
    one: A,
) -> Shot<A> {
    let parts = fresh_parts(program);
    Shot {
        sample,
        lanes: Seq::new(
            parts.len(),
            |j: int|
                if parts[j].active {
                    ground(dimension(parts[j].k), zero, one)
                } else {
                    Seq::empty()
                },
        ),
        values: Map::empty(),
        records: Seq::new(program.nrecords as nat, |q: int| false),
        detectors: if stored {
            Seq::new(program.ndetectors as nat, |q: int| false)
        } else {
            Seq::empty()
        },
        fired: false,
        exps: Seq::new(program.nexpvals as nat, |e: int| 0u64),
    }
}

/// A block of `shots` shots at the start, which read the columns from `first` on.
pub open spec fn fresh<A>(
    program: &FactoredInstructionProgram,
    shot_major: bool,
    stored: bool,
    rng: u64,
    shots: int,
    first: int,
    zero: A,
    one: A,
) -> Block<A> {
    Block {
        k: program.initial_k as int,
        ndormant: program.n - program.initial_k,
        nsymbols: program.nsymbols as int,
        nrecords: program.nrecords as int,
        ndetectors: program.ndetectors as int,
        nexpvals: program.nexpvals as int,
        shot_major,
        stores_detectors: stored,
        split: program.use_active_components,
        parts: fresh_parts(program),
        known: Set::empty(),
        rng,
        shots: Seq::new(
            shots as nat,
            |s: int| fresh_shot(program, stored, first + s, zero, one),
        ),
    }
}

proof fn lemma_fresh_widths(parts: Seq<Part>, initial: int, n: int)
    requires
        0 <= n,
        0 <= initial,
        forall|j: int|
            0 <= j < n ==> (#[trigger] parts[j]).active == (j < initial) && (parts[j].active
                ==> parts[j].k == 1),
    ensures
        widths(parts, n) == if n < initial {
            n
        } else {
            initial
        },
    decreases n,
{
    if n > 0 {
        lemma_fresh_widths(parts, initial, n - 1);
        assert(parts[n - 1].active == (n - 1 < initial));
    }
}

/// A rewound executor holds a fresh block.
pub proof fn lemma_rewound<A: Copy>(
    state: &BatchFactoredExecutorState<A>,
    program: &FactoredInstructionProgram,
    shots: int,
    zero: A,
    one: A,
    first: int,
)
    requires
        state.rewound(program, shots, zero, one),
        reset_refusal(program) is None,
        initial_components_exist(program),
        program.initial_k <= program.max_k,
        program.initial_k <= program.n,
        state.ndormant == program.n - program.initial_k,
    ensures
        state.ready(),
        state.block(first) == fresh(
            program,
            state.dense_shot_major_active,
            state.store_detector_records,
            state.rng_state,
            shots,
            first,
            zero,
            one,
        ),
{
    let a = state.block(first);
    let b = fresh(
        program,
        state.dense_shot_major_active,
        state.store_detector_records,
        state.rng_state,
        shots,
        first,
        zero,
        one,
    );
    lemma_dimension_grows(program.initial_k as int, program.max_k as int);
    reveal_with_fuel(dimension, 2);
    if program.use_active_components {
        let plan = program.active_component_plan->0;
        assert forall|j: int| 0 <= j < state.active_components@.len() implies #[trigger] state.part(j)
            == b.parts[j] by {
            let c = state.active_components@[j];
            assert(component_wf(c, state.active_pitch as int));
        }
        assert forall|j: int| 0 <= j < state.active_components@.len() implies component_wf(
            #[trigger] state.active_components@[j],
            state.active_pitch as int,
        ) by {}
        lemma_fresh_widths(
            state.parts(),
            plan.initial_components as int,
            state.active_components@.len() as int,
        );
    }
    assert(a.parts =~= b.parts);
    assert(a.known =~= b.known) by {
        assert forall|c: i32| !a.known.contains(c) by {
            if c > 0 {
                assert(!state.assigned(c));
            }
        }
    }
    assert forall|s: int| 0 <= s < shots implies #[trigger] a.shots[s] == b.shots[s] by {
        let x = a.shots[s];
        let y = b.shots[s];
        assert(x.values =~= y.values);
        assert(x.records =~= y.records) by {
            assert forall|q: int| 0 <= q < program.nrecords implies x.records[q] == y.records[q] by {
                assert(!state.record_bit(q + 1, s));
            }
        }
        assert(x.detectors =~= y.detectors) by {
            if state.store_detector_records {
                assert forall|q: int| 0 <= q < program.ndetectors implies x.detectors[q]
                    == y.detectors[q] by {
                    assert(!state.detector_bit(q + 1, s));
                }
            }
        }
        assert(!row_bit(state.detector_any_words@, s));
        assert(x.exps =~= y.exps) by {
            assert forall|e: int| 0 <= e < program.nexpvals implies x.exps[e] == y.exps[e] by {
                crate::planes::lemma_plane_index(
                    state.batches as int,
                    state.nexpvals as int,
                    e,
                    s,
                );
                assert(state.exp_values@[e * state.batches + s] == 0);
            }
        }
        assert forall|j: int| 0 <= j < state.part_count() implies x.lanes[j] == y.lanes[j] by {
            assert(state.part(j) == b.parts[j]);
            if state.part(j).active {
                let dim = dimension(state.part(j).k);
                crate::executor::lemma_dimension_positive(state.part(j).k);
                let want = ground(dim, zero, one);
                assert forall|basis: int| 0 <= basis < dim implies state.lane(s, j)[basis]
                    == want[basis] by {
                    let at = crate::executor::lane_index(
                        state.layout(j).shot_major,
                        state.layout(j).stride as int,
                        state.layout(j).pitch as int,
                        s,
                        basis,
                    );
                    assert(state.store(j)[at] == if basis == 0 {
                        one
                    } else {
                        zero
                    });
                }
                assert(state.lane(s, j) =~= want);
            }
        }
        assert(x.lanes =~= y.lanes);
    }
    assert(a.shots =~= b.shots);
}

// ---------------------------------------------------------------------------
// Running
// ---------------------------------------------------------------------------
/// The program can be executed with bit-planes of this many words.
pub open spec fn executable(program: &FactoredInstructionProgram, words: int) -> bool {
    &&& program.wf()
    &&& program.use_active_components ==> program.active_component_plan is Some
        && component_plan_wf(program.active_component_plan->0, program.instructions@)
    &&& forall|i: int|
        0 <= i < program.instructions@.len() ==> ids_fit(#[trigger] program.instructions@[i], words)
}

proof fn lemma_is_whole<A: Copy>(runtime: &BatchFactoredExecutorState<A>, first: int)
    requires
        !runtime.active_components_enabled,
    ensures
        is_whole(runtime.block(first)),
{
    let b = runtime.block(first);
    assert(b.parts[0] == runtime.part(0));
}

/// Where a run stops does not depend on where one starts to count.
proof fn lemma_stops_later<A, K: ActiveKernels<A>>(
    k: &K,
    base: spec_fn(int, int) -> bool,
    plan: PresampledExpressionPlan,
    program: &FactoredInstructionProgram,
    i: int,
    j: int,
    start: Block<A>,
    b: Block<A>,
    text: Seq<char>,
)
    requires
        0 <= i,
        run(k, base, plan, program, 0, i, start) == Ok::<Block<A>, Seq<char>>(b),
        stops_at(k, base, plan, program, i, j, b, text),
    ensures
        stops_at(k, base, plan, program, 0, j, start, text),
{
    lemma_run_split(k, base, plan, program, 0, i, j, start);
}

/// Executes every instruction in order.
#[verifier::rlimit(40)]
fn run_batch_instructions<'a, A: Copy, K: ActiveKernels<A>>(
    k: &K,
    runtime: &mut BatchFactoredExecutorState<A>,
    program: &FactoredInstructionProgram,
    source: &BatchSignSource<'a>,
) -> (r: Result<()>)
    requires
        lawful::<A, K>(k),
        old(runtime).ready(),
        executable(program, old(runtime).batch_words as int),
        source.serves(old(runtime)),
        old(runtime).active_components_enabled == program.use_active_components,
    ensures
        final(runtime).same_frame(old(runtime)),
        final(runtime).active_shots == old(runtime).active_shots,
        match r {
            Ok(_) => {
                &&& final(runtime).ready()
                &&& run(
                    k,
                    source.base(),
                    source.plan_of(),
                    program,
                    0,
                    program.instructions@.len() as int,
                    old(runtime).block(source.first()),
                ) == Ok::<Block<A>, Seq<char>>(final(runtime).block(source.first()))
            },
            Err(e) => run_stops(
                k,
                source.base(),
                source.plan_of(),
                program,
                0,
                old(runtime).block(source.first()),
                e@,
            ),
        },
{
    let ghost base = source.base();
    let ghost plan = source.plan_of();
    let ghost first = source.first();
    let ghost start = old(runtime).block(first);
    let n: usize = program.instructions.len();
    let mut work: Vec<u64> = Vec::new();
    let mut idx: usize = 0;
    while idx < n
        invariant
            idx <= n,
            n == program.instructions@.len(),
            lawful::<A, K>(k),
            runtime.ready(),
            executable(program, runtime.batch_words as int),
            source.serves(runtime),
            runtime.active_components_enabled == program.use_active_components,
            runtime.same_frame(old(runtime)),
            runtime.active_shots == old(runtime).active_shots,
            base == source.base(),
            plan == source.plan_of(),
            first == source.first(),
            start == old(runtime).block(first),
            run(k, base, plan, program, 0, idx as int, start) == Ok::<Block<A>, Seq<char>>(
                runtime.block(first),
            ),
        decreases n - idx,
    {
        let ghost before = *runtime;
        let ghost b = before.block(first);
        let ghost i = idx as int;
        if !runtime.active_components_enabled && runtime.dense_shot_major_active {
            match execute_shot_major_rotation_run(k, runtime, program, source, idx, None) {
                Err(e) => {
                    proof {
                        assert(turning_stops(k, base, plan, program, i, b, e@));
                        let j = choose|j: int| #[trigger]
                            stops_at(k, base, plan, program, i, j, b, e@);
                        lemma_stops_later(k, base, plan, program, i, j, start, b, e@);
                        assert(run_stops(k, base, plan, program, 0, start, e@));
                    }
                    return Err(e);
                },
                Ok(done) => {
                    if done != 0 {
                        proof {
                            lemma_is_whole(&before, first);
                            law_fused_run_is_the_run(k, base, plan, program, i, done as int, b);
                            let x = runtime.block(first);
                            let y = fused(k, base, plan, program.instructions@, i, done as int, b);
                            assert(x.shots =~= y.shots);
                            lemma_run_split(k, base, plan, program, 0, i, i + done, start);
                        }
                        idx += done;
                        continue ;
                    }
                },
            }
        }
        assert(program.instructions@[i].wf());
        assert(ids_fit(program.instructions@[i], runtime.batch_words as int));
        let stepped: Result<()> = if runtime.active_components_enabled {
            match &program.active_component_plan {
                Some(parts) => execute_batch_component_instruction(
                    k,
                    runtime,
                    parts,
                    &program.instructions,
                    source,
                    idx,
                    &mut work,
                ),
                None => {
                    assert(false);
                    Ok(())
                },
            }
        } else {
            execute_batch_instruction(
                k,
                runtime,
                &program.instructions[idx],
                source,
                idx,
                &mut work,
            )
        };
        match stepped {
            Err(e) => {
                proof {
                    assert(run(k, base, plan, program, i, i, b) == Ok::<Block<A>, Seq<char>>(b));
                    assert(stops_at(k, base, plan, program, i, i, b, e@));
                    lemma_stops_later(k, base, plan, program, i, i, start, b, e@);
                    assert(run_stops(k, base, plan, program, 0, start, e@));
                }
                return Err(e);
            },
            Ok(_) => {},
        }
        proof {
            lemma_run_split(k, base, plan, program, 0, i, i + 1, start);
            reveal_with_fuel(run, 2);
            assert(run(k, base, plan, program, i, i + 1, b) == Ok::<Block<A>, Seq<char>>(
                runtime.block(first),
            ));
        }
        idx += 1;
    }
    Ok(())
}

/// Executes a program on a block, with the expression table of a chunk.
pub fn execute_batch_in_place_expressions<A: Copy, K: ActiveKernels<A>>(
    k: &K,
    runtime: &mut BatchFactoredExecutorState<A>,
    program: &FactoredInstructionProgram,
    expression_plan: &PresampledExpressionPlan,
    expression_block: &PresampledExpressionBlock,
    first_sample_shot: usize,
) -> (r: Result<()>)
    requires
        lawful::<A, K>(k),
        old(runtime).ready(),
        executable(program, old(runtime).batch_words as int),
        residuals_wf(*expression_plan),
        expression_block.expression_words@.len() == expression_plan.block_expressions@.len()
            * expression_block.shot_words,
        first_sample_shot + old(runtime).batches + 64 <= usize::MAX,
        old(runtime).active_components_enabled == program.use_active_components,
    ensures
        final(runtime).same_frame(old(runtime)),
        final(runtime).active_shots == old(runtime).active_shots,
        match r {
            Ok(_) => {
                &&& old(runtime).n == program.n
                &&& expression_plan.instruction_expressions@.len() == program.instructions@.len()
                &&& final(runtime).ready()
                &&& old(runtime).active_shots == 0 ==> *final(runtime) == *old(runtime)
                &&& old(runtime).active_shots > 0 ==> run(
                    k,
                    table_bits(
                        expression_block.expression_words@,
                        expression_block.shot_words as int,
                    ),
                    *expression_plan,
                    program,
                    0,
                    program.instructions@.len() as int,
                    old(runtime).block(first_sample_shot as int),
                ) == Ok::<Block<A>, Seq<char>>(final(runtime).block(first_sample_shot as int))
            },
            Err(e) => {
                ||| old(runtime).n != program.n && *final(runtime) == *old(runtime) && e@
                    == "batch executor state does not match program"@
                ||| old(runtime).n == program.n
                    && expression_plan.instruction_expressions@.len() != program.instructions@.len()
                    && *final(runtime) == *old(runtime) && e@
                    == "batch presampled expression plan does not match program"@
                ||| old(runtime).n == program.n
                    && expression_plan.instruction_expressions@.len() == program.instructions@.len()
                    && old(runtime).active_shots > 0 && exists|j: int| #[trigger]
                    stops_at(
                        k,
                        table_bits(
                            expression_block.expression_words@,
                            expression_block.shot_words as int,
                        ),
                        *expression_plan,
                        program,
                        0,
                        j,
                        old(runtime).block(first_sample_shot as int),
                        e@,
                    )
            },
        },
{
    if runtime.n != program.n || runtime.k + runtime.ndormant != runtime.n {
        return Err(TicitError::new("batch executor state does not match program"));
    }
    if expression_plan.instruction_expressions.len() != program.instructions.len() {
        return Err(TicitError::new("batch presampled expression plan does not match program"));
    }
    if runtime.active_shots == 0 {
        return Ok(());
    }
    let source: BatchSignSource = BatchSignSource::Block {
        plan: expression_plan,
        block: expression_block,
        first_sample_shot,
    };
    run_batch_instructions(k, runtime, program, &source)
}

// ---------------------------------------------------------------------------
// What the signs mean
// ---------------------------------------------------------------------------
/// The values that a shot has for every symbol: the sampled ones for exogenous
/// symbols, its own for the others.
pub open spec fn full_valuation<A>(
    samples: PackedPresampledExogenous,
    shot: Shot<A>,
) -> spec_fn(i32) -> bool {
    |c: i32|
        if row_bit(samples.exogenous_assigned_words@, symbol_bit(c as int)) {
            samples.sample_bit(c, shot.sample)
        } else {
            shot_values(shot)(c)
        }
}

/// The sign that an instruction gets from the presampled table and the residual is
/// the value of the instruction's own expression.
pub proof fn law_sign_is_the_plan_value<A>(
    plan: PresampledExpressionPlan,
    block: PresampledExpressionBlock,
    samples: PackedPresampledExogenous,
    program: &FactoredInstructionProgram,
    i: int,
    shot: Shot<A>,
)
    requires
        program.wf(),
        0 <= i < program.instructions@.len(),
        plans_program(plan, program, samples.exogenous_assigned_words@),
        samples.wf(),
        0 <= shot.sample < samples.nshots,
        block.shot_words == samples.shot_words,
        block.expression_words@.len() == plan.block_expressions@.len() * block.shot_words,
        forall|e: int, t: int|
            0 <= e < plan.block_expressions@.len() && 0 <= t < 64 * samples.shot_words
                ==> #[trigger] plane_bit(
                block.expression_words@,
                samples.shot_words as int,
                e,
                t,
            ) == chain_bit(plan.block_expressions@, samples, e, t),
        bulk_plan(program.instructions@[i]) is Some,
    ensures
        sign_at(
            table_bits(block.expression_words@, block.shot_words as int),
            plan,
            i,
            shot,
        ) == bulk_plan(program.instructions@[i])->0.value(full_valuation(samples, shot)),
{
    let words = samples.exogenous_assigned_words@;
    let source = bulk_plan(program.instructions@[i])->0;
    let expression = plan.instruction_expressions@[i];
    let e = expression.block_expression_index as int;
    let t = shot.sample;
    let blocks = plan.block_expressions@;
    let v = full_valuation(samples, shot);
    assert(program.instructions@[i].wf());
    assert(expresses(expression, program.instructions@[i], words));
    assert(same_partial(blocks[e], expression));
    assert(plane_bit(block.expression_words@, samples.shot_words as int, e, t) == chain_bit(
        blocks,
        samples,
        e,
        t,
    ));
    lemma_has_row(
        block.expression_words@,
        block.shot_words as int,
        plan.block_expressions@.len() as int,
        e,
    );
    law_parent_deltas_keep_the_value(blocks, samples, e, t);
    law_split_keeps_the_value(expression, source, words, v);
    lemma_selected(source.conditions@, words, true);
    lemma_selected(source.conditions@, words, false);
    let exo = expression.exogenous_conditions@;
    let rest = expression.residual_plan.conditions@;
    assert forall|q: int| 0 <= q < exo.len() implies v(#[trigger] exo[q]) == shot_valuation(samples, t)(
        exo[q],
    ) by {
        assert(exo.contains(exo[q]));
    }
    lemma_xor_of_ext(exo, v, shot_valuation(samples, t));
    assert forall|q: int| 0 <= q < rest.len() implies v(#[trigger] rest[q]) == shot_values(shot)(
        rest[q],
    ) by {
        assert(rest.contains(rest[q]));
    }
    lemma_xor_of_ext(rest, v, shot_values(shot));
}

// ---------------------------------------------------------------------------
// Standalone sampling
// ---------------------------------------------------------------------------
/// Every record and detector that the program writes is one that it declares.
pub open spec fn ids_bounded(program: &FactoredInstructionProgram) -> bool {
    forall|i: int|
        0 <= i < program.instructions@.len() ==> ins_bounded(
            #[trigger] program.instructions@[i],
            program.nrecords as int,
            program.ndetectors as int,
        )
}

pub open spec fn ins_bounded(ins: FactoredInstruction, nrecords: int, ndetectors: int) -> bool {
    match ins {
        FactoredInstruction::RecordMeasurement(inst) => inst.record is Some ==> inst.record->0
            <= nrecords,
        FactoredInstruction::MeasurePrecomputedActivePauli(inst) => inst.record is Some
            ==> inst.record->0 <= nrecords,
        FactoredInstruction::IntroduceDormantMeasurementBranch(inst) => inst.record is Some
            ==> inst.record->0 <= nrecords,
        FactoredInstruction::RecordDetector(inst) => inst.detector <= ndetectors,
        _ => true,
    }
}

proof fn lemma_merge_counts<A, K: ActiveKernels<A>>(
    k: &K,
    b: Block<A>,
    list: Seq<usize>,
    target: int,
    from: int,
    end: int,
)
    ensures
        match merge_from(k, b, list, target, from, end) {
            Ok(after) => after.nrecords == b.nrecords && after.ndetectors == b.ndetectors,
            Err(_) => true,
        },
    decreases end - from,
{
    if from < end {
        match merge_one(k, b, target, list[from] as int) {
            Ok(next) => {
                lemma_merge_counts(k, next, list, target, from + 1, end);
            },
            Err(_) => {},
        }
    }
}

/// A bounded instruction adds no records or detectors.
pub proof fn lemma_step_counts<A, K: ActiveKernels<A>>(
    k: &K,
    base: spec_fn(int, int) -> bool,
    plan: PresampledExpressionPlan,
    program: &FactoredInstructionProgram,
    i: int,
    b: Block<A>,
)
    requires
        ins_bounded(program.instructions@[i], b.nrecords, b.ndetectors),
    ensures
        match step(k, base, plan, program, i, b) {
            Ok(after) => after.nrecords == b.nrecords && after.ndetectors == b.ndetectors,
            Err(_) => true,
        },
{
    if b.split {
        let parts = program.active_component_plan->0;
        let payload = parts.instruction_steps@[i].payload as int;
        let rotation = parts.rotations@[payload];
        lemma_merge_counts(
            k,
            b,
            parts.merge_components@,
            rotation.component as int,
            rotation.merge_offset as int + 1,
            rotation.merge_offset as int + rotation.merge_count as int,
        );
        let measurement = parts.measurements@[payload];
        lemma_merge_counts(
            k,
            b,
            parts.merge_components@,
            measurement.component as int,
            measurement.merge_offset as int + 1,
            measurement.merge_offset as int + measurement.merge_count as int,
        );
    }
}

/// A bounded program adds no records or detectors.
pub proof fn lemma_run_counts<A, K: ActiveKernels<A>>(
    k: &K,
    base: spec_fn(int, int) -> bool,
    plan: PresampledExpressionPlan,
    program: &FactoredInstructionProgram,
    from: int,
    end: int,
    b: Block<A>,
)
    requires
        ids_bounded(program),
        0 <= from,
        end <= program.instructions@.len(),
        b.nrecords == program.nrecords,
        b.ndetectors == program.ndetectors,
    ensures
        match run(k, base, plan, program, from, end, b) {
            Ok(after) => after.nrecords == b.nrecords && after.ndetectors == b.ndetectors,
            Err(_) => true,
        },
    decreases end - from,
{
    if from < end {
        assert(ins_bounded(
            program.instructions@[from],
            program.nrecords as int,
            program.ndetectors as int,
        ));
        lemma_step_counts(k, base, plan, program, from, b);
        match step(k, base, plan, program, from, b) {
            Ok(next) => {
                lemma_run_counts(k, base, plan, program, from + 1, end, next);
            },
            Err(_) => {},
        }
    }
}

/// The records of one shot, packed.
pub fn collect_shot_records<A: Copy>(runtime: &BatchFactoredExecutorState<A>, shot: usize) -> (r: Vec<
    u64,
>)
    requires
        runtime.planes_wf(),
        shot < runtime.active_shots,
    ensures
        r@.len() == words_for_bits(runtime.nrecords as int),
        forall|q: int|
            0 <= q < 64 * r@.len() ==> #[trigger] row_bit(r@, q) == (q < runtime.nrecords
                && runtime.record_bit(q + 1, shot as int)),
{
    let nrecords: usize = runtime.nrecords;
    let words: usize = bit_word_count(nrecords);
    let mut row: Vec<u64> = filled_list(words, 0u64);
    let stride: usize = runtime.batch_words;
    let ghost st = stride as int;
    let len: usize = runtime.measurement_words.len();
    let word: usize = shot / 64;
    let offset: u64 = (shot % 64) as u64;
    proof {
        assert forall|q: int| 0 <= q < 64 * words implies !#[trigger] row_bit(row@, q) by {
            crate::executor::lemma_clear_row(row@, q);
        }
    }
    let mut record: usize = 0;
    while record < nrecords
        invariant
            record <= nrecords,
            nrecords == runtime.nrecords,
            runtime.planes_wf(),
            shot < runtime.active_shots,
            words == words_for_bits(nrecords as int),
            row@.len() == words,
            stride == runtime.batch_words,
            st == stride,
            len == runtime.measurement_words@.len(),
            word == shot / 64,
            offset == shot % 64,
            forall|q: int|
                0 <= q < 64 * words ==> #[trigger] row_bit(row@, q) == (q < record
                    && runtime.record_bit(q + 1, shot as int)),
        decreases nrecords - record,
    {
        proof {
            crate::planes::lemma_plane_index(st, nrecords as int, record as int, word as int);
        }
        let at: usize = crate::planes::plane_offset(stride, record, word);
        let bit: bool = (runtime.measurement_words[at] >> offset) & 1 == 1;
        let ghost before = row@;
        if bit {
            let slot: usize = record / 64;
            let within: u64 = (record % 64) as u64;
            let joined: u64 = row[slot] | (1u64 << within);
            row.set(slot, joined);
            proof {
                assert forall|q: int| 0 <= q < 64 * words implies #[trigger] row_bit(row@, q) == (q
                    < record + 1 && runtime.record_bit(q + 1, shot as int)) by {
                    crate::bits::lemma_row_bit_update(before, slot as int, joined, q);
                    assert(row_bit(before, q) == (q < record && runtime.record_bit(
                        q + 1,
                        shot as int,
                    )));
                    if q / 64 == slot && q != record {
                        assert(q % 64 != within);
                    }
                }
            }
        } else {
            proof {
                assert forall|q: int| 0 <= q < 64 * words implies #[trigger] row_bit(row@, q) == (q
                    < record + 1 && runtime.record_bit(q + 1, shot as int)) by {
                    assert(row_bit(before, q) == (q < record && runtime.record_bit(
                        q + 1,
                        shot as int,
                    )));
                }
            }
        }
        record += 1;
    }
    row
}

/// Running `shots` shots in blocks of `batches`, with one generator for all of
/// them; nothing where a block fails.
pub open spec fn sampled_shots<A, K: ActiveKernels<A>>(
    k: &K,
    base: spec_fn(int, int) -> bool,
    plan: PresampledExpressionPlan,
    program: &FactoredInstructionProgram,
    batches: int,
    rng: u64,
    offset: int,
    shots: int,
) -> Option<Seq<Shot<A>>>
    decreases shots - offset,
{
    if offset >= shots || batches <= 0 {
        Some(Seq::empty())
    } else {
        let n = if batches < shots - offset {
            batches
        } else {
            shots - offset
        };
        match run(
            k,
            base,
            plan,
            program,
            0,
            program.instructions@.len() as int,
            fresh(
                program,
                false,
                false,
                rng,
                n,
                offset,
                zero_of::<A, K>(k),
                one_of::<A, K>(k),
            ),
        ) {
            Err(_) => None,
            Ok(b) => match sampled_shots(
                k,
                base,
                plan,
                program,
                batches,
                b.rng,
                offset + n,
                shots,
            ) {
                None => None,
                Some(rest) => Some(b.shots + rest),
            },
        }
    }
}

/// The sizes of a standalone sampling call can be addressed.
pub open spec fn samplable(
    program: &FactoredInstructionProgram,
    shots: int,
    batches: int,
) -> bool {
    &&& program.wf()
    &&& program.use_active_components ==> program.active_component_plan is Some
        && component_plan_wf(program.active_component_plan->0, program.instructions@)
    &&& ids_bounded(program)
    &&& initial_components_exist(program)
    &&& exogenous_positive(program)
    &&& exogenous_disjoint(program)
    &&& shots <= u32::MAX
    &&& shots + batches + 2112 <= usize::MAX
    &&& program.nsymbols < i32::MAX
    &&& program.nsymbols * words_for_bits(shots) * 8 <= usize::MAX
    &&& program.instructions@.len() * words_for_bits(shots) <= usize::MAX
    &&& batches > 0 ==> program_fits(program, batches)
    &&& batches == 0 ==> forall|count: int| 1 <= count <= 2048 ==> #[trigger] program_fits(program, count)
}

/// The table and the plan that a sampling call works with.
pub open spec fn tabulated(
    program: &FactoredInstructionProgram,
    samples: PackedPresampledExogenous,
    plan: PresampledExpressionPlan,
    block: PresampledExpressionBlock,
) -> bool {
    &&& samples.wf()
    &&& samples.prepared_for(program)
    &&& plans_program(plan, program, samples.exogenous_assigned_words@)
    &&& block.nshots == samples.nshots
    &&& block.shot_words == samples.shot_words
    &&& block.expression_words@.len() == plan.block_expressions@.len() * block.shot_words
    &&& forall|e: int, t: int|
        0 <= e < plan.block_expressions@.len() && 0 <= t < 64 * samples.shot_words
            ==> #[trigger] plane_bit(block.expression_words@, samples.shot_words as int, e, t)
            == chain_bit(plan.block_expressions@, samples, e, t)
}

pub proof fn lemma_samplable_executes(program: &FactoredInstructionProgram, shots: int, batches: int, words: int, count: int)
    requires
        samplable(program, shots, batches),
        program_fits(program, count),
        words == words_for_bits(count),
        0 <= words,
    ensures
        executable(program, words),
{
    assert forall|i: int| 0 <= i < program.instructions@.len() implies ids_fit(
        #[trigger] program.instructions@[i],
        words,
    ) by {
        assert(ins_bounded(
            program.instructions@[i],
            program.nrecords as int,
            program.ndetectors as int,
        ));
        let ins = program.instructions@[i];
        assert forall|id: int| id <= program.nrecords implies #[trigger] (id * words) <= usize::MAX by {
            assert(id * words <= program.nrecords * words) by (nonlinear_arith)
                requires
                    id <= program.nrecords,
                    0 <= words,
            ;
        }
        assert forall|id: int| id <= program.ndetectors implies #[trigger] (id * words) <= usize::MAX by {
            assert(id * words <= program.ndetectors * words) by (nonlinear_arith)
                requires
                    id <= program.ndetectors,
                    0 <= words,
            ;
        }
    }
}

pub proof fn lemma_residuals(
    plan: PresampledExpressionPlan,
    program: &FactoredInstructionProgram,
    words: Seq<u64>,
)
    requires
        plans_program(plan, program, words),
    ensures
        residuals_wf(plan),
{
    assert forall|i: int| 0 <= i < plan.instruction_expressions@.len() implies (
    #[trigger] plan.instruction_expressions@[i]).residual_plan.wf() by {
        assert(expresses(plan.instruction_expressions@[i], program.instructions@[i], words));
    }
}

/// The records and expectation values of a sampling call, shot by shot.
#[derive(Clone, Debug)]
pub struct MeasurementExpectationSamples {
    /// The packed records of every shot.
    pub measurements: Vec<Vec<u64>>,
    /// The bits of the expectation values of every shot.
    pub expectations: Vec<Vec<u64>>,
}

/// The expectation values of one shot.
pub fn collect_shot_expectations<A: Copy>(runtime: &BatchFactoredExecutorState<A>, shot: usize) -> (r:
    Vec<u64>)
    requires
        runtime.planes_wf(),
        shot < runtime.active_shots,
    ensures
        r@.len() == runtime.nexpvals,
        forall|e: int|
            0 <= e < r@.len() ==> #[trigger] r@[e] == runtime.exp_values@[(e * runtime.batches) + shot],
{
    let count: usize = runtime.nexpvals;
    let batches: usize = runtime.batches;
    let total: usize = runtime.exp_values.len();
    let mut out: Vec<u64> = Vec::new();
    let mut e: usize = 0;
    while e < count
        invariant
            e <= count,
            shot < runtime.active_shots,
            count == runtime.nexpvals,
            batches == runtime.batches,
            total == runtime.exp_values@.len(),
            runtime.planes_wf(),
            out@.len() == e,
            forall|i: int|
                0 <= i < e ==> #[trigger] out@[i] == runtime.exp_values@[(i * batches) + shot],
        decreases count - e,
    {
        proof {
            crate::planes::lemma_plane_index(batches as int, count as int, e as int, shot as int);
        }
        let at: usize = crate::planes::plane_offset(batches, e, shot);
        out.push(runtime.exp_values[at]);
        e += 1;
    }
    out
}

/// Why a sampling call fails.
pub open spec fn sampling_refused<A, K: ActiveKernels<A>>(
    k: &K,
    program: &FactoredInstructionProgram,
    draws: ExogenousDraws,
    shots: int,
    batches: int,
    seed: u64,
    text: Seq<char>,
) -> bool {
    ||| text == "exogenous condition exceeds program symbol table"@ && exists|c: i32| #[trigger]
        is_exogenous(program, c) && outside(c, words_for_bits(program.nsymbols as int))
    ||| exists|plan: PresampledExpressionPlan, words: Seq<u64>, b: int| #[trigger]
        untabled(program, plan, words, b) == Some(text)
    ||| batches == 0 && dimension(program.max_k as int) > usize::MAX && text
        == "active state width is out of range"@
    ||| reset_refusal(program) == Some(text)
    ||| exists|plan: PresampledExpressionPlan| #[trigger]
        sampling_stops::<A, K>(
            k,
            program,
            draws,
            plan,
            block_size(program, batches),
            seed,
            shots,
            text,
        )
}

/// Samples the records and the expectation values of `shots` shots, block by block.
/// One generator carries through every block. The exogenous draws are given.
#[verifier::rlimit(80)]
pub fn sample_measurements_and_expectations_batch<A: Copy, K: ActiveKernels<A>>(
    k: &K,
    program: &FactoredInstructionProgram,
    draws: &ExogenousDraws,
    shots: usize,
    batches: usize,
    seed: u64,
) -> (r: Result<MeasurementExpectationSamples>)
    requires
        lawful::<A, K>(k),
        samplable(program, shots as int, batches as int),
        draws_wf(program, *draws, shots as int),
    ensures
        match r {
            Ok(out) => {
                &&& out.measurements@.len() == shots
                &&& out.expectations@.len() == shots
                &&& exists|plan: PresampledExpressionPlan| #[trigger]
                    sampled_both::<A, K>(
                        k,
                        program,
                        *draws,
                        plan,
                        block_size(program, batches as int),
                        seed,
                        out,
                    )
            },
            Err(e) => sampling_refused::<A, K>(
                k,
                program,
                *draws,
                shots as int,
                batches as int,
                seed,
                e@,
            ),
        },
{
    let samples: PackedPresampledExogenous = match presample_exogenous_packed(program, shots, draws) {
        Ok(samples) => samples,
        Err(e) => {
            return Err(e);
        },
    };
    let mut plan: PresampledExpressionPlan = PresampledExpressionPlan::new();
    match prepare_presampled_expression_plan(&mut plan, program, &samples) {
        Ok(_) => {},
        Err(e) => {
            return Err(e);
        },
    }
    let ghost sw = samples.shot_words as int;
    proof {
        assert(0 <= sw);
        assert(plan.block_expressions@.len() * sw <= program.instructions@.len() * sw)
            by (nonlinear_arith)
            requires
                plan.block_expressions@.len() <= program.instructions@.len(),
                0 <= sw,
        ;
        assert(program.nsymbols * sw <= program.nsymbols * sw * 8) by (nonlinear_arith)
            requires
                0 <= sw,
        ;
    }
    let mut block: PresampledExpressionBlock = PresampledExpressionBlock::new();
    match evaluate_presampled_expression_block(&mut block, &plan, &samples) {
        Ok(_) => {},
        Err(e) => {
            proof {
                let words = samples.exogenous_assigned_words@;
                let blocks = plan.block_expressions@;
                let b = choose|b: int|
                    0 <= b < blocks.len() && expression_refusal(
                        blocks,
                        samples.nsymbols as int,
                        #[trigger] nth(blocks, b).1,
                    ) == Some(e@);
                assert(untabled(program, plan, words, b) == Some(e@));
            }
            return Err(e);
        },
    }
    let zero: A = k.zero();
    let one: A = k.one();
    let mut runtime: BatchFactoredExecutorState<A> = match BatchFactoredExecutorState::new(
        program,
        batches,
        seed,
        zero,
        one,
    ) {
        Ok(runtime) => runtime,
        Err(e) => {
            return Err(e);
        },
    };
    let ghost size = runtime.batches as int;
    let ghost base = table_bits(block.expression_words@, block.shot_words as int);
    let ghost n = program.instructions@.len() as int;
    proof {
        crate::noise::lemma_noise_table(plan, program, *draws, samples, block);
        assert(planned(program, plan));
        lemma_residuals(plan, program, samples.exogenous_assigned_words@);
        crate::executor::lemma_dimension_positive(program.max_k as int);
        assert(program_fits(program, size));
        lemma_samplable_executes(
            program,
            shots as int,
            batches as int,
            words_for_bits(size),
            size,
        );
    }
    let mut rows: Vec<Vec<u64>> = Vec::new();
    let mut values: Vec<Vec<u64>> = Vec::new();
    let mut offset: usize = 0;
    let ghost mut done: Seq<Shot<A>> = Seq::empty();
    let ghost total = sampled_shots(k, base, plan, program, size, seed, 0, shots as int);
    while offset < shots
        invariant
            offset <= shots,
            rows@.len() == offset,
            values@.len() == offset,
            done.len() == offset,
            lawful::<A, K>(k),
            samplable(program, shots as int, batches as int),
            program_fits(program, size),
            executable(program, words_for_bits(size)),
            runtime.batches == size,
            1 <= size,
            size == block_size(program, batches as int),
            size <= 2048 || size == batches,
            tabulated(program, samples, plan, block),
            samples.nshots == shots,
            draws_fill(program, *draws, samples),
            total == sampled_shots(k, base, plan, program, size, seed, 0, shots as int),
            reset_refusal(program) is None,
            !runtime.dense_shot_major_active,
            !runtime.store_detector_records,
            zero == zero_of::<A, K>(k),
            one == one_of::<A, K>(k),
            base == table_bits(block.expression_words@, block.shot_words as int),
            base == noise_table(plan, program, *draws, shots as int),
            planned(program, plan),
            n == program.instructions@.len(),
            residuals_wf(plan),
            plan.instruction_expressions@.len() == program.instructions@.len(),
            block.expression_words@.len() == plan.block_expressions@.len() * block.shot_words,
            total == match sampled_shots(
                k,
                base,
                plan,
                program,
                size,
                runtime.rng_state,
                offset as int,
                shots as int,
            ) {
                None => None,
                Some(rest) => Some(done + rest),
            },
            forall|i: int|
                0 <= i < offset ==> holds_records((#[trigger] rows@[i])@, done[i], program.nrecords as int),
            forall|i: int| 0 <= i < offset ==> (#[trigger] values@[i])@ == done[i].exps,
        decreases shots - offset,
    {
        let left: usize = shots - offset;
        let count: usize = if runtime.batches < left {
            runtime.batches
        } else {
            left
        };
        match reset_batch_executor(&mut runtime, program, count, zero, one) {
            Ok(_) => {},
            Err(e) => {
                return Err(e);
            },
        }
        let ghost started = runtime;
        proof {
            lemma_rewound(&runtime, program, count as int, zero, one, offset as int);
        }
        match execute_batch_in_place_expressions(
            k,
            &mut runtime,
            program,
            &plan,
            &block,
            offset,
        ) {
            Ok(_) => {},
            Err(e) => {
                proof {
                    let j = choose|j: int| #[trigger]
                        stops_at(
                            k,
                            base,
                            plan,
                            program,
                            0,
                            j,
                            started.block(offset as int),
                            e@,
                        );
                    lemma_stops_fails(
                        k,
                        base,
                        plan,
                        program,
                        j,
                        started.block(offset as int),
                        e@,
                    );
                    assert(total is None);
                    assert(block_stops_at::<A, K>(
                        k,
                        base,
                        plan,
                        program,
                        started.rng_state,
                        count as int,
                        offset as int,
                        j,
                        e@,
                    ));
                    assert(sampling_stops::<A, K>(
                        k,
                        program,
                        *draws,
                        plan,
                        size,
                        seed,
                        shots as int,
                        e@,
                    ));
                }
                return Err(e);
            },
        }
        let ghost b = runtime.block(offset as int);
        proof {
            lemma_run_counts(k, base, plan, program, 0, n, started.block(offset as int));
        }
        let ghost rows0 = rows@;
        let ghost values0 = values@;
        let mut shot: usize = 0;
        while shot < count
            invariant
                shot <= count,
                count == runtime.active_shots,
                runtime.ready(),
                runtime.nrecords == program.nrecords,
                b == runtime.block(offset as int),
                rows@.len() == offset + shot,
                rows0.len() == offset,
                values@.len() == offset + shot,
                values0.len() == offset,
                forall|i: int| 0 <= i < offset ==> values@[i] == values0[i],
                forall|i: int|
                    offset <= i < offset + shot ==> (#[trigger] values@[i])@ == b.shots[i
                        - offset].exps,
                forall|i: int| 0 <= i < offset ==> rows@[i] == rows0[i],
                forall|i: int|
                    offset <= i < offset + shot ==> holds_records(
                        (#[trigger] rows@[i])@,
                        b.shots[i - offset],
                        program.nrecords as int,
                    ),
            decreases count - shot,
        {
            let row: Vec<u64> = collect_shot_records(&runtime, shot);
            proof {
                assert(b.shots[shot as int].records =~= row_bits(row@, program.nrecords as int)) by {
                    assert forall|q: int| 0 <= q < program.nrecords implies
                        b.shots[shot as int].records[q] == row_bits(row@, program.nrecords as int)[q] by {
                        assert(row_bit(row@, q) == (q < runtime.nrecords && runtime.record_bit(
                            q + 1,
                            shot as int,
                        )));
                    }
                }
            }
            rows.push(row);
            let value: Vec<u64> = collect_shot_expectations(&runtime, shot);
            assert(b.shots[shot as int].exps =~= value@);
            values.push(value);
            shot += 1;
        }
        proof {
            let before = done;
            done = done + b.shots;
            match sampled_shots(
                k,
                base,
                plan,
                program,
                size,
                b.rng,
                offset + count,
                shots as int,
            ) {
                None => {},
                Some(rest) => {
                    assert(before + (b.shots + rest) =~= done + rest);
                },
            }
            assert forall|i: int| 0 <= i < offset + count implies holds_records(
                (#[trigger] rows@[i])@,
                done[i],
                program.nrecords as int,
            ) by {
                if i < offset {
                    assert(rows@[i] == rows0[i]);
                }
            }
            assert forall|i: int| 0 <= i < offset + count implies (#[trigger] values@[i])@
                == done[i].exps by {
                if i < offset {
                    assert(values@[i] == values0[i]);
                }
            }
        }
        offset += count;
    }
    let out = MeasurementExpectationSamples { measurements: rows, expectations: values };
    proof {
        assert(done + Seq::<Shot<A>>::empty() =~= done);
        assert(sampled_both::<A, K>(
            k,
            program,
            *draws,
            plan,
            block_size(program, batches as int),
            seed,
            out,
        ));
    }
    Ok(out)
}

/// Samples the records of `shots` shots, as
/// [`sample_measurements_and_expectations_batch`] does.
pub fn sample_measurements_batch<A: Copy, K: ActiveKernels<A>>(
    k: &K,
    program: &FactoredInstructionProgram,
    draws: &ExogenousDraws,
    shots: usize,
    batches: usize,
    seed: u64,
) -> (r: Result<Vec<Vec<u64>>>)
    requires
        lawful::<A, K>(k),
        samplable(program, shots as int, batches as int),
        draws_wf(program, *draws, shots as int),
    ensures
        match r {
            Ok(rows) => {
                &&& rows@.len() == shots
                &&& exists|plan: PresampledExpressionPlan| #[trigger]
                    sampled_rows::<A, K>(
                        k,
                        program,
                        *draws,
                        plan,
                        block_size(program, batches as int),
                        seed,
                        rows@,
                    )
            },
            Err(e) => sampling_refused::<A, K>(
                k,
                program,
                *draws,
                shots as int,
                batches as int,
                seed,
                e@,
            ),
        },
{
    match sample_measurements_and_expectations_batch(k, program, draws, shots, batches, seed) {
        Ok(out) => {
            proof {
                let plan = choose|plan: PresampledExpressionPlan| #[trigger]
                    sampled_both::<A, K>(
                        k,
                        program,
                        *draws,
                        plan,
                        block_size(program, batches as int),
                        seed,
                        out,
                    );
                assert(sampled_rows::<A, K>(
                    k,
                    program,
                    *draws,
                    plan,
                    block_size(program, batches as int),
                    seed,
                    out.measurements@,
                ));
            }
            Ok(out.measurements)
        },
        Err(e) => Err(e),
    }
}

/// Why a block expression of a plan for the program has no place in the symbol
/// table, if it has none.
pub open spec fn untabled(
    program: &FactoredInstructionProgram,
    plan: PresampledExpressionPlan,
    words: Seq<u64>,
    b: int,
) -> Option<Seq<char>> {
    if plans_program(plan, program, words) && marks(words, |c: i32| is_exogenous(program, c)) && 0
        <= b < plan.block_expressions@.len() {
        expression_refusal(plan.block_expressions@, program.nsymbols as int, b)
    } else {
        None
    }
}

/// Shots of one block.
pub open spec fn block_size(program: &FactoredInstructionProgram, batches: int) -> int {
    if batches > 0 {
        batches
    } else {
        default_batches(program.max_k as int)
    }
}

/// The plan interns the expressions of the program.
pub open spec fn planned(program: &FactoredInstructionProgram, plan: PresampledExpressionPlan) -> bool {
    exists|words: Seq<u64>| #[trigger]
        plans_program(plan, program, words) && marks(words, |c: i32| is_exogenous(program, c))
}

/// A block of `n` shots from `first` on stops at instruction `j` with the text.
pub open spec fn block_stops_at<A, K: ActiveKernels<A>>(
    k: &K,
    base: spec_fn(int, int) -> bool,
    plan: PresampledExpressionPlan,
    program: &FactoredInstructionProgram,
    rng: u64,
    n: int,
    first: int,
    j: int,
    text: Seq<char>,
) -> bool {
    stops_at(
        k,
        base,
        plan,
        program,
        0,
        j,
        fresh(program, false, false, rng, n, first, zero_of::<A, K>(k), one_of::<A, K>(k)),
        text,
    )
}

/// Some block of the sampling call stops with the text.
pub open spec fn sampling_stops<A, K: ActiveKernels<A>>(
    k: &K,
    program: &FactoredInstructionProgram,
    draws: ExogenousDraws,
    plan: PresampledExpressionPlan,
    size: int,
    seed: u64,
    shots: int,
    text: Seq<char>,
) -> bool {
    let base = noise_table(plan, program, draws, shots);
    &&& planned(program, plan)
    &&& sampled_shots::<A, K>(k, base, plan, program, size, seed, 0, shots) is None
    &&& exists|rng: u64, n: int, first: int, j: int|
        0 <= first && 0 < n <= size && first + n <= shots && #[trigger] block_stops_at::<A, K>(
            k,
            base,
            plan,
            program,
            rng,
            n,
            first,
            j,
            text,
        )
}

/// A run that stops fails.
pub proof fn lemma_stops_fails<A, K: ActiveKernels<A>>(
    k: &K,
    base: spec_fn(int, int) -> bool,
    plan: PresampledExpressionPlan,
    program: &FactoredInstructionProgram,
    j: int,
    b: Block<A>,
    text: Seq<char>,
)
    requires
        stops_at(k, base, plan, program, 0, j, b, text),
    ensures
        run(k, base, plan, program, 0, program.instructions@.len() as int, b) is Err,
{
    lemma_run_split(k, base, plan, program, 0, j, program.instructions@.len() as int, b);
}

/// The row packs the records of the shot, and nothing beyond them is set.
pub open spec fn holds_records<A>(row: Seq<u64>, shot: Shot<A>, nrecords: int) -> bool {
    &&& row.len() == words_for_bits(nrecords)
    &&& shot.records == row_bits(row, nrecords)
    &&& forall|q: int| nrecords <= q < 64 * row.len() ==> !#[trigger] row_bit(row, q)
}

/// The rows are the records of the shots that the program gives under the draws.
pub open spec fn sampled_rows<A, K: ActiveKernels<A>>(
    k: &K,
    program: &FactoredInstructionProgram,
    draws: ExogenousDraws,
    plan: PresampledExpressionPlan,
    size: int,
    seed: u64,
    rows: Seq<Vec<u64>>,
) -> bool {
    &&& planned(program, plan)
    &&& match sampled_shots(
        k,
        noise_table(plan, program, draws, rows.len() as int),
        plan,
        program,
        size,
        seed,
        0,
        rows.len() as int,
    ) {
        Some(shots) => shots.len() == rows.len() && forall|i: int|
            0 <= i < rows.len() ==> holds_records(
                (#[trigger] rows[i])@,
                shots[i],
                program.nrecords as int,
            ),
        None => false,
    }
}

/// The rows and values are those of the shots that the program gives under the draws.
pub open spec fn sampled_both<A, K: ActiveKernels<A>>(
    k: &K,
    program: &FactoredInstructionProgram,
    draws: ExogenousDraws,
    plan: PresampledExpressionPlan,
    size: int,
    seed: u64,
    out: MeasurementExpectationSamples,
) -> bool {
    let n = out.measurements@.len() as int;
    &&& planned(program, plan)
    &&& match sampled_shots(
        k,
        noise_table(plan, program, draws, n),
        plan,
        program,
        size,
        seed,
        0,
        n,
    ) {
        Some(shots) => {
            &&& shots.len() == n
            &&& out.expectations@.len() == n
            &&& forall|i: int|
                0 <= i < n ==> holds_records(
                    (#[trigger] out.measurements@[i])@,
                    shots[i],
                    program.nrecords as int,
                )
            &&& forall|i: int| 0 <= i < n ==> (#[trigger] out.expectations@[i])@ == shots[i].exps
        },
        None => false,
    }
}

/// The table holds the drawn values.
pub open spec fn draws_fill(
    program: &FactoredInstructionProgram,
    draws: ExogenousDraws,
    samples: PackedPresampledExogenous,
) -> bool {
    forall|j: int, c: i32, i: int|
        0 <= j < crate::exogenous::family_count(program) && #[trigger] crate::exogenous::family_has(
            program,
            j,
            c,
        ) && 0 <= i < 64 * samples.shot_words ==> #[trigger] samples.sample_bit(c, i)
            == crate::exogenous::drawn_bit(program, draws, samples.nshots as int, j, c, i)
}

} // verus!
