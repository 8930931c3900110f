//! Sampling chunk by chunk. A chunk has noise of its own, and its blocks have seeds
//! of their own, so what a chunk gives does not depend on which worker runs it.
use vstd::prelude::*;
use crate::bits::words_for_bits;
use crate::driver::{
    draws_fill, execute_batch_in_place_expressions, fresh, lemma_rewound, ids_bounded, ins_bounded,
    lemma_run_counts, lemma_samplable_executes, lemma_step_counts, tabulated,
    untabled,
};
use crate::errors::Result;
use crate::executor::{reset_batch_executor, BatchFactoredExecutorState};
use crate::exogenous::{draws_wf, resample_prepared_exogenous_packed_in_place, ExogenousDraws};
use crate::execution_laws::{
    law_nothing_selected_is_a_run, lemma_prepared_plan_fits, lemma_run_keeps_shots,
};
use crate::follow::select_stops;
use crate::kernels::{lawful, one_of, zero_of, ActiveKernels};
use crate::model::{Block, Shot};
use crate::noise::{lemma_noise_table, noise_table};
use crate::outputs::{
    append_block_outputs, groups_exist, groups_parity, lemma_ones_bound, lemma_tallied_alike, lemma_tallied_concat,
    list_exists, list_parity, observables_exist, read_alike, tallied, OutputOptions, SampleCounts,
    SampleTally,
};
use crate::postselect::{
    execute_batch_postselected_in_place, leaves, tables_refusal, BatchDetectorPostselectionOptions,
};
use crate::postselect_model::{lemma_select_split, select_run, select_step, unclaimed};
use crate::presampled_expression::{
    evaluate_presampled_expression_block, expression_refusal, nth, plans_program,
};
use crate::program::{discards, FactoredInstructionProgram};
use crate::runs::stops_at;
use crate::sampler::{
    is_group, lemma_all_in_range, BatchWorker, SamplerPlan, POSTSELECTION_COMPACTION_DENOMINATOR,
};
use crate::signs::table_bits;
use crate::survive::{list_in_range, retained_by, retained_in_range};

verus! {

/// What chance gives a chunk: the draws of its noise, and a seed for every block.
#[derive(Clone, Debug)]
pub struct ChunkNoise {
    pub draws: ExogenousDraws,
    pub branch_seeds: Vec<u64>,
}

/// A block of the sampler at the start.
pub open spec fn block_start<A, K: ActiveKernels<A>>(
    k: &K,
    plan: &SamplerPlan,
    keep: bool,
    rng: u64,
    n: int,
    first: int,
) -> Block<A> {
    fresh(
        &plan.program,
        true,
        keep,
        rng,
        n,
        first,
        zero_of::<A, K>(k),
        one_of::<A, K>(k),
    )
}

/// What is left of a block.
pub open spec fn block_left<A, K: ActiveKernels<A>>(
    k: &K,
    plan: &SamplerPlan,
    base: spec_fn(int, int) -> bool,
    keep: bool,
    rng: u64,
    n: int,
    first: int,
) -> crate::model::Outcome<A> {
    select_run(
        k,
        base,
        plan.expression_plan,
        &plan.program,
        plan.options.expected_detectors@,
        0,
        plan.program.instructions@.len() as int,
        block_start(k, plan, keep, rng, n, first),
    )
}

/// The shots that are left of a chunk from `offset` on, block by block; nothing where
/// a block fails.
pub open spec fn chunk_left<A, K: ActiveKernels<A>>(
    k: &K,
    plan: &SamplerPlan,
    base: spec_fn(int, int) -> bool,
    keep: bool,
    shots: int,
    seeds: Seq<u64>,
    offset: int,
    local: int,
) -> Option<Seq<Shot<A>>>
    decreases shots - offset,
{
    let batch = plan.options.batch_size as int;
    if offset >= shots || batch <= 0 {
        Some(Seq::empty())
    } else {
        let n = if batch < shots - offset {
            batch
        } else {
            shots - offset
        };
        match block_left(k, plan, base, keep, seeds[local], n, offset) {
            Err(_) => None,
            Ok(b) => match chunk_left(k, plan, base, keep, shots, seeds, offset + n, local + 1) {
                None => None,
                Some(rest) => Some(b.shots + rest),
            },
        }
    }
}

/// The shots that are left of a chunk under its noise.
pub open spec fn left_of<A, K: ActiveKernels<A>>(
    k: &K,
    plan: &SamplerPlan,
    keep: bool,
    shots: int,
    noise: ChunkNoise,
) -> Option<Seq<Shot<A>>> {
    chunk_left(
        k,
        plan,
        noise_table(plan.expression_plan, &plan.program, noise.draws, shots),
        keep,
        shots,
        noise.branch_seeds@,
        0,
        0,
    )
}

/// The noise fits a chunk of this size.
pub open spec fn noise_fits(plan: &SamplerPlan, shots: int, noise: ChunkNoise) -> bool {
    &&& draws_wf(&plan.program, noise.draws, shots)
    &&& noise.branch_seeds@.len() * plan.options.batch_size >= shots
}

/// A block stops with the text.
pub open spec fn block_stops<A, K: ActiveKernels<A>>(
    k: &K,
    plan: &SamplerPlan,
    base: spec_fn(int, int) -> bool,
    keep: bool,
    rng: u64,
    n: int,
    first: int,
    text: Seq<char>,
) -> bool {
    exists|j: int| #[trigger]
        select_stops(
            k,
            base,
            plan.expression_plan,
            &plan.program,
            plan.options.expected_detectors@,
            0,
            j,
            block_start(k, plan, keep, rng, n, first),
            text,
        )
}

/// Block `b` of a chunk stops with the text.
pub open spec fn chunk_stops<A, K: ActiveKernels<A>>(
    k: &K,
    plan: &SamplerPlan,
    keep: bool,
    shots: int,
    noise: ChunkNoise,
    b: int,
    text: Seq<char>,
) -> bool {
    let batch = plan.options.batch_size as int;
    let left = shots - b * batch;
    &&& 0 <= b
    &&& 0 < left
    &&& block_stops(
        k,
        plan,
        noise_table(plan.expression_plan, &plan.program, noise.draws, shots),
        keep,
        noise.branch_seeds@[b],
        if batch < left {
            batch
        } else {
            left
        },
        b * batch,
        text,
    )
}

/// An observable names a record that the program does not have. Postselection finds it
/// among the records that it is asked to retain, unless it retains them all; otherwise
/// it is found where the observables are read.
pub open spec fn observable_missing(plan: &SamplerPlan, keep: bool, text: Seq<char>) -> bool {
    &&& !observables_exist(plan.observable_records@, plan.program.nrecords as int)
    &&& text == if plan.postselection && !keep {
        "retained record use references an out-of-range measurement record"@
    } else {
        "observable references an out-of-range measurement record"@
    }
}

/// Why a chunk fails: an expression cannot be tabulated, an observable does not
/// exist, or a block stops.
pub open spec fn chunk_refused<A, K: ActiveKernels<A>>(
    k: &K,
    plan: &SamplerPlan,
    keep: bool,
    shots: int,
    noise: ChunkNoise,
    text: Seq<char>,
) -> bool {
    ||| exists|words: Seq<u64>, b: int| #[trigger]
        untabled(&plan.program, plan.expression_plan, words, b) == Some(text)
    ||| observable_missing(plan, keep, text)
    ||| left_of::<A, K>(k, plan, keep, shots, noise) is None && exists|b: int| #[trigger]
        chunk_stops::<A, K>(k, plan, keep, shots, noise, b, text)
}

impl SamplerPlan {
    /// What is kept of the shots.
    pub open spec fn outputs(&self, keep_records: bool, bit_packed: bool) -> OutputOptions {
        OutputOptions {
            observable_records: &self.observable_records,
            expected_detectors: &self.options.expected_detectors,
            expected_observables: &self.options.expected_observables,
            selected_observable: self.options.observable,
            keep_records,
            bit_packed,
        }
    }
}

impl SampleTally {
    /// The counts add up.
    pub open spec fn sound(&self) -> bool {
        &&& self.counts.accepted + self.counts.discarded == self.counts.shots
        &&& self.counts.logical_errors <= self.counts.accepted
        &&& forall|i: int|
            0 <= i < self.observable_ones@.len() ==> #[trigger] self.observable_ones@[i]
                <= self.counts.accepted
    }
}

// ---------------------------------------------------------------------------
// Reading what is left
// ---------------------------------------------------------------------------
proof fn lemma_list_parity_ext(a: Seq<bool>, b: Seq<bool>, list: Seq<i32>, n: int)
    requires
        0 <= n <= list.len(),
        forall|t: int| 0 <= t < n ==> a[#[trigger] list[t] - 1] == b[list[t] - 1],
    ensures
        list_parity(a, list, n) == list_parity(b, list, n),
    decreases n,
{
    if n > 0 {
        lemma_list_parity_ext(a, b, list, n - 1);
        assert(a[list[n - 1] - 1] == b[list[n - 1] - 1]);
    }
}

proof fn lemma_groups_parity_ext(a: Seq<bool>, b: Seq<bool>, groups: Seq<Vec<i32>>, n: int)
    requires
        0 <= n <= groups.len(),
        forall|g: int, t: int|
            0 <= g < n && 0 <= t < groups[g]@.len() ==> a[#[trigger] groups[g]@[t] - 1]
                == b[groups[g]@[t] - 1],
    ensures
        groups_parity(a, groups, n) == groups_parity(b, groups, n),
    decreases n,
{
    if n > 0 {
        lemma_groups_parity_ext(a, b, groups, n - 1);
        let list = groups[n - 1]@;
        assert forall|t: int| 0 <= t < list.len() implies a[#[trigger] list[t] - 1] == b[list[t] - 1] by {
            assert(groups[n - 1]@[t] == list[t]);
        }
        lemma_list_parity_ext(a, b, list, list.len() as int);
    }
}

/// What is left is read alike from the executor.
proof fn lemma_leaves_alike<A: Copy>(
    plan: &SamplerPlan,
    keep: bool,
    packed: bool,
    retained: Seq<Vec<i32>>,
    runtime: &BatchFactoredExecutorState<A>,
    left: Block<A>,
)
    requires
        plan.wf(),
        retained == if keep {
            plan.retained_output_records@
        } else {
            plan.retained_observable_records@
        },
        runtime.nrecords == plan.program.nrecords,
        observables_exist(plan.observable_records@, plan.program.nrecords as int),
        leaves(&plan.program, retained, runtime, left),
    ensures
        read_alike(&plan.outputs(keep, packed), runtime.block(0).shots, left.shots),
{
    let o = plan.outputs(keep, packed);
    let a = runtime.block(0).shots;
    let b = left.shots;
    let nrecords = plan.program.nrecords as int;
    lemma_all_in_range(plan.retained_output_records@, nrecords);
    assert forall|s: int, i: int|
        0 <= s < a.len() && 0 <= i < o.observable_records@.len() implies #[trigger] o.observable_bit(
        a[s],
        i,
    ) == o.observable_bit(b[s], i) by {
        assert(a[s] == runtime.shot(s, s));
        let groups = plan.observable_records@[i]@;
        assert(groups_exist(groups, nrecords));
        assert forall|g: int, t: int|
            0 <= g < groups.len() && 0 <= t < groups[g]@.len() implies a[s].records[
            #[trigger] groups[g]@[t] - 1] == b[s].records[groups[g]@[t] - 1] by {
            let q = groups[g]@[t];
            assert(list_exists(groups[g]@, nrecords));
            assert(0 < groups[g]@[t] <= nrecords);
            assert(plan.observable_records@[i]@[g]@.contains(q));
            let wide = q as int;
            assert(retained_by(retained, wide as i32)) by {
                if keep {
                    assert(retained_by(plan.retained_output_records@, wide as i32));
                } else {
                    assert(retained_by(plan.retained_observable_records@, q));
                }
            }
            assert(b[s].records.len() == a[s].records.len());
        }
        lemma_groups_parity_ext(a[s].records, b[s].records, groups, groups.len() as int);
    }
    if keep {
        assert forall|s: int| 0 <= s < a.len() implies (#[trigger] a[s]).records == b[s].records
            && a[s].detectors == b[s].detectors && a[s].exps == b[s].exps by {
            assert(a[s] == runtime.shot(s, s));
            assert(b[s].records.len() == a[s].records.len());
            assert(a[s].records =~= b[s].records) by {
                assert forall|q: int| 0 <= q < nrecords implies a[s].records[q] == b[s].records[q] by {
                    let id = q + 1;
                    assert(retained_by(retained, id as i32));
                }
            }
        }
    }
}

/// A whole block is read alike wherever its columns start.
proof fn lemma_shifted_alike<A: Copy>(
    plan: &SamplerPlan,
    keep: bool,
    packed: bool,
    runtime: &BatchFactoredExecutorState<A>,
    first: int,
)
    ensures
        read_alike(
            &plan.outputs(keep, packed),
            runtime.block(0).shots,
            runtime.block(first).shots,
        ),
{
    let o = plan.outputs(keep, packed);
    let a = runtime.block(0).shots;
    let b = runtime.block(first).shots;
    assert forall|s: int, i: int|
        0 <= s < a.len() && 0 <= i < o.observable_records@.len() implies #[trigger] o.observable_bit(
        a[s],
        i,
    ) == o.observable_bit(b[s], i) by {
        assert(a[s].records == b[s].records);
    }
}

/// The retained observable records exist exactly where those of the observables do.
proof fn lemma_retained_range(plan: &SamplerPlan)
    requires
        plan.wf(),
    ensures
        retained_in_range(plan.retained_observable_records@, plan.program.nrecords as int)
            == observables_exist(plan.observable_records@, plan.program.nrecords as int),
{
    let nrecords = plan.program.nrecords as int;
    let groups = plan.retained_observable_records@;
    let observables = plan.observable_records@;
    if observables_exist(observables, nrecords) {
        assert forall|h: int| 0 <= h < groups.len() implies list_in_range(
            (#[trigger] groups[h])@,
            nrecords,
        ) by {
            assert(is_group(observables, groups[h]@));
            let (o, g) = choose|o: int, g: int|
                0 <= o < observables.len() && 0 <= g < observables[o]@.len() && (
                #[trigger] observables[o]@[g])@ == groups[h]@;
            assert(groups_exist(observables[o]@, nrecords));
            let list = observables[o]@[g]@;
            assert(list_exists(list, nrecords));
            assert forall|t: int| 0 <= t < groups[h]@.len() implies 0 < #[trigger] groups[h]@[t]
                <= nrecords by {
                assert(0 < list[t] <= nrecords);
            }
        }
    }
    if retained_in_range(groups, nrecords) {
        assert forall|o: int| 0 <= o < observables.len() implies groups_exist(
            (#[trigger] observables[o])@,
            nrecords,
        ) by {
            assert forall|g: int| 0 <= g < observables[o]@.len() implies list_exists(
                (#[trigger] observables[o]@[g])@,
                nrecords,
            ) by {
                let list = observables[o]@[g]@;
                assert forall|t: int| 0 <= t < list.len() implies 0 < #[trigger] list[t]
                    <= nrecords by {
                    assert(observables[o]@[g]@.contains(list[t]));
                    assert(retained_by(groups, list[t]));
                    let h = choose|h: int|
                        0 <= h < groups.len() && (#[trigger] groups[h])@.contains(list[t]);
                    let at = groups[h]@.index_of(list[t]);
                    assert(list_in_range(groups[h]@, nrecords));
                    assert(groups[h]@[at] == list[t]);
                }
            }
        }
    }
}

/// A selection that stops fails.
proof fn lemma_select_stops_fails<A, K: ActiveKernels<A>>(
    k: &K,
    base: spec_fn(int, int) -> bool,
    plan: crate::presampled_expression::PresampledExpressionPlan,
    program: &FactoredInstructionProgram,
    expected: Seq<u8>,
    j: int,
    b: Block<A>,
    text: Seq<char>,
)
    requires
        select_stops(k, base, plan, program, expected, 0, j, b, text),
    ensures
        select_run(k, base, plan, program, expected, 0, program.instructions@.len() as int, b) is Err,
{
    lemma_select_split(k, base, plan, program, expected, 0, j, program.instructions@.len() as int, b);
}

/// A run that stops is a selection that stops, where nothing is selected.
proof fn lemma_plain_stop<A, K: ActiveKernels<A>>(
    k: &K,
    base: spec_fn(int, int) -> bool,
    plan: crate::presampled_expression::PresampledExpressionPlan,
    program: &FactoredInstructionProgram,
    expected: Seq<u8>,
    j: int,
    b: Block<A>,
    text: Seq<char>,
)
    requires
        b.shots.len() > 0,
        !program.postselects(),
        stops_at(k, base, plan, program, 0, j, b, text),
    ensures
        select_stops(k, base, plan, program, expected, 0, j, b, text),
        select_run(k, base, plan, program, expected, 0, program.instructions@.len() as int, b) is Err,
{
    lemma_run_keeps_shots(k, base, plan, program, 0, j, b);
    law_nothing_selected_is_a_run(k, base, plan, program, expected, 0, j, b);
    assert(!discards(program.instructions@[j]));
    assert(select_stops(k, base, plan, program, expected, 0, j, b, text));
    lemma_select_stops_fails(k, base, plan, program, expected, j, b, text);
}

/// A bounded program adds no records or detectors.
pub proof fn lemma_select_counts<A, K: ActiveKernels<A>>(
    k: &K,
    base: spec_fn(int, int) -> bool,
    plan: crate::presampled_expression::PresampledExpressionPlan,
    program: &FactoredInstructionProgram,
    expected: Seq<u8>,
    from: int,
    end: int,
    b: Block<A>,
)
    requires
        ids_bounded(program),
        0 <= from,
        end <= program.instructions@.len(),
        b.nrecords == program.nrecords,
        b.ndetectors == program.ndetectors,
    ensures
        match select_run(k, base, plan, program, expected, from, end, b) {
            Ok(left) => left.nrecords == b.nrecords && left.ndetectors == b.ndetectors,
            Err(_) => true,
        },
    decreases end - from,
{
    if from < end && b.shots.len() > 0 {
        assert(ins_bounded(
            program.instructions@[from],
            program.nrecords as int,
            program.ndetectors as int,
        ));
        lemma_step_counts(k, base, plan, program, from, b);
        match select_step(k, base, plan, program, expected, from, b) {
            Ok(next) => {
                lemma_select_counts(k, base, plan, program, expected, from + 1, end, next);
            },
            Err(_) => {},
        }
    }
}

// ---------------------------------------------------------------------------
// Blocks
// ---------------------------------------------------------------------------
/// Runs one block of a chunk, and gives how many of its shots are gone.
#[verifier::rlimit(100)]
#[verifier::spinoff_prover]
fn run_block<A: Copy, K: ActiveKernels<A>>(
    k: &K,
    plan: &SamplerPlan,
    worker: &mut BatchWorker<A>,
    offset: usize,
    n: usize,
    rng: u64,
    keep_records: bool,
    bit_packed: bool,
    zero: A,
    one: A,
) -> (r: Result<usize>)
    requires
        lawful::<A, K>(k),
        zero == zero_of::<A, K>(k),
        one == one_of::<A, K>(k),
        plan.wf(),
        old(worker).serves(plan),
        old(worker).runtime.store_detector_records == keep_records,
        0 < n <= plan.options.batch_size,
        offset + n <= plan.options.sample_chunk_shots,
        old(worker).expression_block.expression_words@.len()
            == plan.expression_plan.block_expressions@.len() * old(
            worker,
        ).expression_block.shot_words,
        offset + n <= old(worker).expression_block.nshots,
    ensures
        final(worker).serves(plan),
        final(worker).runtime.store_detector_records == keep_records,
        final(worker).samples == old(worker).samples,
        final(worker).expression_block == old(worker).expression_block,
        final(worker).tally == old(worker).tally,
        match r {
            Ok(discarded) => match block_left(
                k,
                plan,
                table_bits(
                    old(worker).expression_block.expression_words@,
                    old(worker).expression_block.shot_words as int,
                ),
                keep_records,
                rng,
                n as int,
                offset as int,
            ) {
                Ok(b) => {
                    &&& final(worker).runtime.planes_wf()
                    &&& final(worker).runtime.nrecords == plan.program.nrecords
                    &&& final(worker).runtime.active_shots == b.shots.len()
                    &&& discarded + b.shots.len() == n
                    &&& plan.postselection && !keep_records ==> observables_exist(
                        plan.observable_records@,
                        plan.program.nrecords as int,
                    )
                    &&& observables_exist(
                        plan.observable_records@,
                        plan.program.nrecords as int,
                    ) ==> read_alike(
                        &plan.outputs(keep_records, bit_packed),
                        final(worker).runtime.block(0).shots,
                        b.shots,
                    )
                },
                Err(_) => false,
            },
            Err(e) => {
                let base = table_bits(
                    old(worker).expression_block.expression_words@,
                    old(worker).expression_block.shot_words as int,
                );
                ||| observable_missing(plan, keep_records, e@)
                ||| block_left(k, plan, base, keep_records, rng, n as int, offset as int) is Err
                    && block_stops(
                    k,
                    plan,
                    base,
                    keep_records,
                    rng,
                    n as int,
                    offset as int,
                    e@,
                )
            },
        },
{
    let ghost program = &plan.program;
    let ghost batch = plan.options.batch_size as int;
    let ghost words = words_for_bits(batch);
    let ghost base = table_bits(
        worker.expression_block.expression_words@,
        worker.expression_block.shot_words as int,
    );
    let ghost exprs = plan.expression_plan;
    let ghost len = program.instructions@.len() as int;
    proof {
        let table = choose|table: Seq<u64>| #[trigger]
            plans_program(exprs, program, table) && crate::exogenous::marks(
                table,
                |c: i32| crate::exogenous::is_exogenous(program, c),
            );
        lemma_prepared_plan_fits(exprs, program, table);
        assert(exprs.block_expressions@.len() <= len);
        assert(exprs.block_expressions@.len() * words <= len * words) by (nonlinear_arith)
            requires
                exprs.block_expressions@.len() <= len,
                0 <= words,
        ;
        lemma_samplable_executes(
            program,
            plan.options.sample_chunk_shots as int,
            batch,
            words,
            batch,
        );
    }
    worker.runtime.rng_state = rng;
    match reset_batch_executor(&mut worker.runtime, &plan.program, n, zero, one) {
        Ok(_) => {},
        Err(e) => {
            assert(false);
            return Err(e);
        },
    }
    let ghost started = worker.runtime;
    let ghost start = started.block(offset as int);
    proof {
        lemma_rewound(&worker.runtime, program, n as int, zero, one, offset as int);
        assert(start == block_start::<A, K>(k, plan, keep_records, rng, n as int, offset as int));
        assert(unclaimed(program, 0, start));
        lemma_select_counts(
            k,
            base,
            exprs,
            program,
            plan.options.expected_detectors@,
            0,
            len,
            start,
        );
    }
    let mut discarded: usize = 0;
    let ghost mut left = start;
    if plan.postselection {
        let options: BatchDetectorPostselectionOptions = BatchDetectorPostselectionOptions {
            mask_dead_shots_min_fraction_denominator: POSTSELECTION_COMPACTION_DENOMINATOR,
            retained_record_uses: Some(
                if keep_records {
                    plan.retained_output_records.as_slice()
                } else {
                    plan.retained_observable_records.as_slice()
                },
            ),
            expected_detectors: plan.options.expected_detectors.as_slice(),
        };
        let ghost retained = options.retained();
        proof {
            lemma_all_in_range(plan.retained_output_records@, program.nrecords as int);
            lemma_retained_range(plan);
        }
        match execute_batch_postselected_in_place(
            k,
            &mut worker.runtime,
            &plan.program,
            &plan.expression_plan,
            &worker.expression_block,
            offset,
            &mut worker.postselection_scratch,
            &options,
        ) {
            Ok(result) => {
                discarded = result.discarded;
                proof {
                    left = block_left(
                        k,
                        plan,
                        base,
                        keep_records,
                        rng,
                        n as int,
                        offset as int,
                    )->Ok_0;
                }
            },
            Err(e) => {
                proof {
                    if tables_refusal(program, retained) is Some {
                        assert(observable_missing(plan, keep_records, e@));
                    } else {
                        let j = choose|j: int| #[trigger]
                            select_stops(
                                k,
                                base,
                                exprs,
                                program,
                                plan.options.expected_detectors@,
                                0,
                                j,
                                start,
                                e@,
                            );
                        lemma_select_stops_fails(
                            k,
                            base,
                            exprs,
                            program,
                            plan.options.expected_detectors@,
                            j,
                            start,
                            e@,
                        );
                    }
                }
                return Err(e);
            },
        }
    } else {
        proof {
            law_nothing_selected_is_a_run(
                k,
                base,
                exprs,
                program,
                plan.options.expected_detectors@,
                0,
                len,
                start,
            );
        }
        match execute_batch_in_place_expressions(
            k,
            &mut worker.runtime,
            &plan.program,
            &plan.expression_plan,
            &worker.expression_block,
            offset,
        ) {
            Ok(_) => {
                proof {
                    left = worker.runtime.block(offset as int);
                    lemma_run_counts(k, base, exprs, program, 0, len, start);
                }
            },
            Err(e) => {
                proof {
                    let j = choose|j: int| #[trigger]
                        stops_at(k, base, exprs, program, 0, j, start, e@);
                    lemma_plain_stop(
                        k,
                        base,
                        exprs,
                        program,
                        plan.options.expected_detectors@,
                        j,
                        start,
                        e@,
                    );
                }
                return Err(e);
            },
        }
    }
    proof {
        if observables_exist(plan.observable_records@, program.nrecords as int) {
            if plan.postselection {
                lemma_leaves_alike(
                    plan,
                    keep_records,
                    bit_packed,
                    if keep_records {
                        plan.retained_output_records@
                    } else {
                        plan.retained_observable_records@
                    },
                    &worker.runtime,
                    left,
                );
            } else {
                lemma_shifted_alike(plan, keep_records, bit_packed, &worker.runtime, offset as int);
            }
        }
    }
    Ok(discarded)
}

/// Runs one block of a chunk and adds it to the tally.
#[verifier::rlimit(60)]
fn sample_block<A: Copy, K: ActiveKernels<A>>(
    k: &K,
    plan: &SamplerPlan,
    worker: &mut BatchWorker<A>,
    offset: usize,
    n: usize,
    rng: u64,
    keep_records: bool,
    bit_packed: bool,
    zero: A,
    one: A,
) -> (r: Result<()>)
    requires
        lawful::<A, K>(k),
        zero == zero_of::<A, K>(k),
        one == one_of::<A, K>(k),
        plan.wf(),
        old(worker).serves(plan),
        old(worker).runtime.store_detector_records == keep_records,
        0 < n <= plan.options.batch_size,
        offset + n <= plan.options.sample_chunk_shots,
        old(worker).expression_block.expression_words@.len()
            == plan.expression_plan.block_expressions@.len() * old(
            worker,
        ).expression_block.shot_words,
        offset + n <= old(worker).expression_block.nshots,
        old(worker).tally.sound(),
        old(worker).tally.counts.shots + n <= u64::MAX,
    ensures
        final(worker).serves(plan),
        final(worker).runtime.store_detector_records == keep_records,
        final(worker).samples == old(worker).samples,
        final(worker).expression_block == old(worker).expression_block,
        match r {
            Ok(_) => match block_left(
                k,
                plan,
                table_bits(
                    old(worker).expression_block.expression_words@,
                    old(worker).expression_block.shot_words as int,
                ),
                keep_records,
                rng,
                n as int,
                offset as int,
            ) {
                Ok(b) => {
                    &&& tallied(
                        &plan.outputs(keep_records, bit_packed),
                        old(worker).tally,
                        final(worker).tally,
                        b.shots,
                    )
                    &&& final(worker).tally.counts.shots == old(worker).tally.counts.shots + n
                    &&& final(worker).tally.sound()
                },
                Err(_) => false,
            },
            Err(e) => {
                let base = table_bits(
                    old(worker).expression_block.expression_words@,
                    old(worker).expression_block.shot_words as int,
                );
                ||| observable_missing(plan, keep_records, e@)
                ||| block_left(k, plan, base, keep_records, rng, n as int, offset as int) is Err
                    && block_stops(
                    k,
                    plan,
                    base,
                    keep_records,
                    rng,
                    n as int,
                    offset as int,
                    e@,
                )
            },
        },
{
    let ghost base = table_bits(
        worker.expression_block.expression_words@,
        worker.expression_block.shot_words as int,
    );
    let discarded: usize = match run_block(
        k,
        plan,
        worker,
        offset,
        n,
        rng,
        keep_records,
        bit_packed,
        zero,
        one,
    ) {
        Ok(discarded) => discarded,
        Err(e) => {
            return Err(e);
        },
    };
    let ghost shots = block_left(
        k,
        plan,
        base,
        keep_records,
        rng,
        n as int,
        offset as int,
    )->Ok_0.shots;
    let outputs: OutputOptions = OutputOptions {
        observable_records: &plan.observable_records,
        expected_detectors: &plan.options.expected_detectors,
        expected_observables: &plan.options.expected_observables,
        selected_observable: plan.options.observable,
        keep_records,
        bit_packed,
    };
    let ghost before = worker.tally;
    match append_block_outputs(
        &mut worker.tally,
        &mut worker.observable_words,
        &worker.runtime,
        &outputs,
    ) {
        Ok(_) => {},
        Err(e) => {
            return Err(e);
        },
    }
    proof {
        lemma_tallied_alike(
            &outputs,
            before,
            worker.tally,
            worker.runtime.block(0).shots,
            shots,
        );
        assert forall|i: int| 0 <= i < worker.tally.observable_ones@.len() implies (
        #[trigger] worker.tally.observable_ones@[i]) <= worker.tally.counts.accepted by {
            lemma_ones_bound(&outputs, shots, i, shots.len() as int);
            assert(before.observable_ones@[i] <= before.counts.accepted);
        }
        if outputs.selected_observable < outputs.observable_records@.len() {
            lemma_ones_bound(
                &outputs,
                shots,
                outputs.selected_observable as int,
                shots.len() as int,
            );
        }
    }
    worker.tally.counts = SampleCounts {
        shots: worker.tally.counts.shots + n as u64,
        discarded: worker.tally.counts.discarded + discarded as u64,
        ..worker.tally.counts
    };
    Ok(())
}

// ---------------------------------------------------------------------------
// Chunks
// ---------------------------------------------------------------------------
proof fn lemma_chunk_room(plan: &SamplerPlan, shots: int)
    requires
        plan.wf(),
        0 <= shots <= plan.options.sample_chunk_shots,
    ensures
        plan.program.nsymbols * words_for_bits(shots) * 8 <= usize::MAX,
        plan.program.nsymbols * words_for_bits(shots) <= usize::MAX,
        plan.program.instructions@.len() * words_for_bits(shots) <= usize::MAX,
{
    let chunk = plan.options.sample_chunk_shots as int;
    let a = words_for_bits(shots);
    let b = words_for_bits(chunk);
    let n = plan.program.nsymbols as int;
    let m = plan.program.instructions@.len() as int;
    assert(0 <= a <= b);
    assert(n * a * 8 <= n * b * 8 && n * a <= n * a * 8) by (nonlinear_arith)
        requires
            0 <= a <= b,
            0 <= n,
    ;
    assert(m * a <= m * b) by (nonlinear_arith)
        requires
            0 <= a <= b,
            0 <= m,
    ;
}

/// Runs one chunk on a worker: draws its noise into the table, and runs its blocks.
#[verifier::rlimit(100)]
#[verifier::spinoff_prover]
pub fn sample_chunk<A: Copy, K: ActiveKernels<A>>(
    k: &K,
    plan: &SamplerPlan,
    worker: &mut BatchWorker<A>,
    shots: usize,
    noise: &ChunkNoise,
    keep_records: bool,
    bit_packed: bool,
) -> (r: Result<()>)
    requires
        lawful::<A, K>(k),
        plan.wf(),
        old(worker).serves(plan),
        shots <= plan.options.sample_chunk_shots,
        noise_fits(plan, shots as int, *noise),
        old(worker).tally.sound(),
        old(worker).tally.counts.shots + shots <= u64::MAX,
    ensures
        final(worker).serves(plan),
        match r {
            Ok(_) => match left_of::<A, K>(k, plan, keep_records, shots as int, *noise) {
                Some(left) => {
                    &&& tallied(
                        &plan.outputs(keep_records, bit_packed),
                        old(worker).tally,
                        final(worker).tally,
                        left,
                    )
                    &&& final(worker).tally.counts.shots == old(worker).tally.counts.shots + shots
                    &&& final(worker).tally.sound()
                },
                None => false,
            },
            Err(e) => chunk_refused::<A, K>(k, plan, keep_records, shots as int, *noise, e@),
        },
{
    let ghost program = &plan.program;
    let ghost exprs = plan.expression_plan;
    let ghost o = plan.outputs(keep_records, bit_packed);
    proof {
        lemma_chunk_room(plan, shots as int);
    }
    match resample_prepared_exogenous_packed_in_place(
        &mut worker.samples,
        &plan.program,
        shots,
        &noise.draws,
    ) {
        Ok(_) => {},
        Err(e) => {
            assert(false);
            return Err(e);
        },
    }
    let ghost words = worker.samples.exogenous_assigned_words@;
    proof {
        let table = choose|table: Seq<u64>| #[trigger]
            plans_program(exprs, program, table) && crate::exogenous::marks(
                table,
                |c: i32| crate::exogenous::is_exogenous(program, c),
            );
        let has = |c: i32| crate::exogenous::is_exogenous(program, c);
        assert forall|x: i32| x > 0 implies #[trigger] crate::bits::row_bit(
            table,
            crate::bits::symbol_bit(x as int),
        ) == crate::bits::row_bit(words, crate::bits::symbol_bit(x as int)) by {
            assert(crate::bits::row_bit(table, crate::bits::symbol_bit(x as int)) == has(x));
            assert(crate::bits::row_bit(words, crate::bits::symbol_bit(x as int)) == has(x));
        }
        crate::noise::lemma_plans_ext(exprs, program, table, words);
        let sw = words_for_bits(shots as int);
        assert(exprs.block_expressions@.len() * sw <= program.instructions@.len() * sw)
            by (nonlinear_arith)
            requires
                exprs.block_expressions@.len() <= program.instructions@.len(),
                0 <= sw,
        ;
    }
    match evaluate_presampled_expression_block(
        &mut worker.expression_block,
        &plan.expression_plan,
        &worker.samples,
    ) {
        Ok(_) => {},
        Err(e) => {
            proof {
                let blocks = exprs.block_expressions@;
                let b = choose|b: int|
                    0 <= b < blocks.len() && expression_refusal(
                        blocks,
                        worker.samples.nsymbols as int,
                        #[trigger] nth(blocks, b).1,
                    ) == Some(e@);
                assert(untabled(program, exprs, words, b) == Some(e@));
            }
            return Err(e);
        },
    }
    let ghost base = table_bits(
        worker.expression_block.expression_words@,
        worker.expression_block.shot_words as int,
    );
    proof {
        assert(tabulated(program, worker.samples, exprs, worker.expression_block));
        assert(draws_fill(program, noise.draws, worker.samples));
        lemma_noise_table(exprs, program, noise.draws, worker.samples, worker.expression_block);
    }
    worker.runtime.store_detector_records = keep_records;
    let zero: A = k.zero();
    let one: A = k.one();
    let batch: usize = plan.options.batch_size;
    let ghost total = left_of::<A, K>(k, plan, keep_records, shots as int, *noise);
    let ghost mut done: Seq<Shot<A>> = Seq::empty();
    let mut offset: usize = 0;
    let mut local: usize = 0;
    proof {
        lemma_tallied_none::<A>(&o, worker.tally);
        match total {
            Some(rest) => {
                assert(Seq::<Shot<A>>::empty() + rest =~= rest);
            },
            None => {},
        }
    }
    while offset < shots
        invariant
            offset <= shots,
            lawful::<A, K>(k),
            plan.wf(),
            worker.serves(plan),
            worker.runtime.store_detector_records == keep_records,
            shots <= plan.options.sample_chunk_shots,
            noise_fits(plan, shots as int, *noise),
            zero == zero_of::<A, K>(k),
            one == one_of::<A, K>(k),
            batch == plan.options.batch_size,
            exprs == plan.expression_plan,
            o == plan.outputs(keep_records, bit_packed),
            offset < shots ==> offset == local * batch,
            worker.expression_block.nshots == shots,
            worker.expression_block.expression_words@.len() == exprs.block_expressions@.len()
                * worker.expression_block.shot_words,
            base == table_bits(
                worker.expression_block.expression_words@,
                worker.expression_block.shot_words as int,
            ),
            base == noise_table(exprs, &plan.program, noise.draws, shots as int),
            old(worker).tally.counts.shots + shots <= u64::MAX,
            old(worker).tally.observable_ones@.len() == plan.observable_records@.len(),
            worker.tally.sound(),
            worker.tally.counts.shots == old(worker).tally.counts.shots + offset,
            tallied(&o, old(worker).tally, worker.tally, done),
            total == left_of::<A, K>(k, plan, keep_records, shots as int, *noise),
            total == match chunk_left(
                k,
                plan,
                base,
                keep_records,
                shots as int,
                noise.branch_seeds@,
                offset as int,
                local as int,
            ) {
                None => None,
                Some(rest) => Some(done + rest),
            },
        decreases shots - offset,
    {
        let left: usize = shots - offset;
        let n: usize = if batch < left {
            batch
        } else {
            left
        };
        proof {
            assert(local < noise.branch_seeds@.len()) by (nonlinear_arith)
                requires
                    offset == local * batch,
                    offset < shots,
                    noise.branch_seeds@.len() * batch >= shots,
                    0 < batch,
            ;
        }
        let seeds: usize = noise.branch_seeds.len();
        assert(local < seeds);
        let rng: u64 = noise.branch_seeds[local];
        let ghost before = worker.tally;
        match sample_block(
            k,
            plan,
            worker,
            offset,
            n,
            rng,
            keep_records,
            bit_packed,
            zero,
            one,
        ) {
            Ok(_) => {},
            Err(e) => {
                proof {
                    if !observable_missing(plan, keep_records, e@) {
                        assert(chunk_stops::<A, K>(
                            k,
                            plan,
                            keep_records,
                            shots as int,
                            *noise,
                            local as int,
                            e@,
                        ));
                    }
                }
                return Err(e);
            },
        }
        proof {
            let b = block_left(k, plan, base, keep_records, rng, n as int, offset as int)->Ok_0;
            lemma_tallied_concat(&o, old(worker).tally, before, worker.tally, done, b.shots);
            let prior = done;
            done = done + b.shots;
            match chunk_left(
                k,
                plan,
                base,
                keep_records,
                shots as int,
                noise.branch_seeds@,
                offset + n,
                local + 1,
            ) {
                None => {},
                Some(rest) => {
                    assert(prior + (b.shots + rest) =~= done + rest);
                },
            }
            assert((local + 1) * batch == local * batch + batch) by (nonlinear_arith);
        }
        offset += n;
        local += 1;
    }
    assert(done + Seq::<Shot<A>>::empty() =~= done);
    Ok(())
}

proof fn lemma_tallied_none<'a, A>(o: &OutputOptions<'a>, t: SampleTally)
    ensures
        tallied(o, t, t, Seq::<Shot<A>>::empty()),
{
    let none = Seq::<Shot<A>>::empty();
    assert(o.measurement_rows(none) =~= Seq::<Seq<bool>>::empty());
    assert(o.detector_rows(none) =~= Seq::<Seq<bool>>::empty());
    assert(o.observable_rows(none) =~= Seq::<Seq<bool>>::empty());
    assert(t.measurements@ + Seq::<u8>::empty() =~= t.measurements@);
    assert(t.detectors@ + Seq::<u8>::empty() =~= t.detectors@);
    assert(t.observables@ + Seq::<u8>::empty() =~= t.observables@);
    assert(t.exp_vals@ + Seq::<u64>::empty() =~= t.exp_vals@);
}

} // verus!
