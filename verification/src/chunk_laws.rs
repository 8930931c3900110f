//! Which shots of a chunk are left, and which noise and randomness each of them takes.
use vstd::prelude::*;
use crate::chunks::{block_left, block_start, chunk_left};
use crate::kernels::ActiveKernels;
use crate::model::{
    assign, coins, detector_outcomes, measure, measure_branch, merge, merge_from, merge_one, signs,
    step, step_whole, with_detectors, with_lanes, with_records, write_branch, write_measurement,
    Block, Part, Shot,
};
use crate::postselect_model::{accepted, discards_at, expected_at, select_run, select_step};
use crate::presampled_expression::PresampledExpressionPlan;
use crate::program::{
    ActiveComponentStepKind, FactoredInstruction, FactoredInstructionProgram, MeasurementKernel,
};
use crate::sampler::SamplerPlan;
use crate::symbolic::SymbolicBoolEvaluationPlan;

verus! {

// ---------------------------------------------------------------------------
// Columns
// ---------------------------------------------------------------------------
/// The shots are the same in number, and each reads the column that it read before.
pub open spec fn same_columns<A>(b: Block<A>, after: Block<A>) -> bool {
    &&& after.shots.len() == b.shots.len()
    &&& after.split == b.split
    &&& forall|s: int|
        0 <= s < b.shots.len() ==> (#[trigger] after.shots[s]).sample == b.shots[s].sample
}

proof fn lemma_write_columns<A>(
    b: Block<A>,
    record: Option<i32>,
    bits: Seq<bool>,
    condition: Option<i32>,
)
    ensures
        match write_measurement(b, record, bits, condition) {
            Ok(after) => same_columns(b, after),
            Err(_) => true,
        },
{
    if record is Some {
        assert(record->0 > 0 ==> same_columns(b, with_records(b, record->0 as int, bits)));
    }
}

proof fn lemma_merge_columns<A, K: ActiveKernels<A>>(
    k: &K,
    b: Block<A>,
    list: Seq<usize>,
    target: int,
    from: int,
    end: int,
)
    ensures
        match merge_from(k, b, list, target, from, end) {
            Ok(after) => same_columns(b, after),
            Err(_) => true,
        },
    decreases end - from,
{
    if from < end {
        match merge_one(k, b, target, list[from] as int) {
            Ok(next) => {
                lemma_merge_columns(k, next, list, target, from + 1, end);
            },
            Err(_) => {},
        }
    }
}

proof fn lemma_measure_columns<A, K: ActiveKernels<A>>(
    k: &K,
    b: Block<A>,
    j: int,
    kernel: MeasurementKernel,
    branch: i32,
)
    ensures
        match measure_branch(k, b, j, kernel, branch) {
            Ok((after, _)) => same_columns(b, after),
            Err(_) => true,
        },
{
    match measure(k, b, j, kernel) {
        Ok((after, branches)) => {
            assert(same_columns(b, after));
        },
        Err(_) => {},
    }
}

proof fn lemma_branch_columns<A>(
    base: spec_fn(int, int) -> bool,
    plan: PresampledExpressionPlan,
    i: int,
    b: Block<A>,
    branches: Seq<bool>,
    branch: i32,
    outcome_plan: SymbolicBoolEvaluationPlan,
    record: Option<i32>,
    condition: Option<i32>,
)
    ensures
        match write_branch(base, plan, i, b, branches, branch, outcome_plan, record, condition) {
            Ok(after) => same_columns(b, after),
            Err(_) => true,
        },
{
    lemma_write_columns(
        b,
        record,
        Seq::new(b.shots.len(), |s: int| branches[s] != outcome_plan.constant),
        condition,
    );
    lemma_write_columns(b, record, signs(base, plan, i, b), condition);
}

proof fn lemma_whole_columns<A, K: ActiveKernels<A>>(
    k: &K,
    base: spec_fn(int, int) -> bool,
    plan: PresampledExpressionPlan,
    ins: FactoredInstruction,
    i: int,
    b: Block<A>,
)
    ensures
        match step_whole(k, base, plan, ins, i, b) {
            Ok(after) => same_columns(b, after),
            Err(_) => true,
        },
{
    match ins {
        FactoredInstruction::RecordMeasurement(inst) => {
            lemma_write_columns(
                b,
                inst.record,
                signs(base, plan, i, b),
                inst.record_condition,
            );
        },
        FactoredInstruction::MeasurePrecomputedActivePauli(inst) => {
            lemma_measure_columns(k, b, 0, inst.kernel, inst.branch);
            match measure_branch(k, b, 0, inst.kernel, inst.branch) {
                Ok((after, branches)) => {
                    lemma_branch_columns(
                        base,
                        plan,
                        i,
                        after,
                        branches,
                        inst.branch,
                        inst.outcome_plan,
                        inst.record,
                        inst.record_condition,
                    );
                },
                Err(_) => {},
            }
        },
        FactoredInstruction::IntroduceDormantMeasurementBranch(inst) => {
            let (next, drawn) = coins(k, b);
            match assign(Block { rng: next, ..b }, inst.branch, drawn) {
                Ok(after) => {
                    assert(same_columns(b, after));
                    lemma_branch_columns(
                        base,
                        plan,
                        i,
                        after,
                        drawn,
                        inst.branch,
                        inst.outcome_plan,
                        inst.record,
                        inst.record_condition,
                    );
                },
                Err(_) => {},
            }
        },
        _ => {},
    }
}

proof fn lemma_step_columns<A, K: ActiveKernels<A>>(
    k: &K,
    base: spec_fn(int, int) -> bool,
    plan: PresampledExpressionPlan,
    program: &FactoredInstructionProgram,
    i: int,
    b: Block<A>,
)
    ensures
        match step(k, base, plan, program, i, b) {
            Ok(after) => same_columns(b, after),
            Err(_) => true,
        },
{
    let ins = program.instructions@[i];
    lemma_whole_columns(k, base, plan, ins, i, b);
    if b.split {
        let parts = program.active_component_plan->0;
        let at = parts.instruction_steps@[i];
        match at.kind {
            ActiveComponentStepKind::Rotation => {
                let rotation = parts.rotations@[at.payload as int];
                lemma_merge_columns(
                    k,
                    b,
                    parts.merge_components@,
                    rotation.component as int,
                    rotation.merge_offset as int + 1,
                    rotation.merge_offset as int + rotation.merge_count as int,
                );
            },
            ActiveComponentStepKind::Measurement => match ins {
                FactoredInstruction::MeasurePrecomputedActivePauli(inst) => {
                    let m = parts.measurements@[at.payload as int];
                    let target = m.component as int;
                    lemma_merge_columns(
                        k,
                        b,
                        parts.merge_components@,
                        target,
                        m.merge_offset as int + 1,
                        m.merge_offset as int + m.merge_count as int,
                    );
                    match merge(
                        k,
                        b,
                        parts.merge_components@,
                        m.merge_offset as int,
                        m.merge_count as int,
                        target,
                    ) {
                        Ok(merged) => {
                            lemma_measure_columns(k, merged, target, m.kernel, inst.branch);
                            match measure_branch(k, merged, target, m.kernel, inst.branch) {
                                Ok((after, branches)) => {
                                    let left = if m.deactivate_after {
                                        with_lanes(
                                            after,
                                            target,
                                            Part { active: false, ..after.parts[target] },
                                            Seq::new(after.shots.len(), |s: int| Seq::empty()),
                                        )
                                    } else {
                                        after
                                    };
                                    assert(same_columns(b, left));
                                    lemma_branch_columns(
                                        base,
                                        plan,
                                        i,
                                        left,
                                        branches,
                                        inst.branch,
                                        inst.outcome_plan,
                                        inst.record,
                                        inst.record_condition,
                                    );
                                },
                                Err(_) => {},
                            }
                        },
                        Err(_) => {},
                    }
                },
                _ => {},
            },
            _ => {},
        }
    }
}

/// An instruction that discards nothing keeps every shot in its place, with its column of
/// the noise.
pub proof fn law_steps_keep_every_shot_in_its_place<A, K: ActiveKernels<A>>(
    k: &K,
    base: spec_fn(int, int) -> bool,
    plan: PresampledExpressionPlan,
    program: &FactoredInstructionProgram,
    i: int,
    b: Block<A>,
)
    ensures
        match step(k, base, plan, program, i, b) {
            Ok(after) => same_columns(b, after),
            Err(_) => true,
        },
{
    lemma_step_columns(k, base, plan, program, i, b);
}

/// The columns lie from `low` on and below `high`, and ascend from shot to shot.
pub open spec fn columns_ascend<A>(shots: Seq<Shot<A>>, low: int, high: int) -> bool {
    &&& forall|s: int| 0 <= s < shots.len() ==> low <= (#[trigger] shots[s]).sample < high
    &&& forall|s: int, t: int|
        0 <= s < t < shots.len() ==> (#[trigger] shots[s]).sample < (#[trigger] shots[t]).sample
}

proof fn lemma_accepted_columns<A>(
    shots: Seq<Shot<A>>,
    outcomes: Seq<bool>,
    expected: bool,
    n: int,
    low: int,
    high: int,
)
    requires
        0 <= n <= shots.len(),
        columns_ascend(shots, low, high),
    ensures
        columns_ascend(accepted(shots, outcomes, expected, n), low, high),
        forall|s: int|
            0 <= s < accepted(shots, outcomes, expected, n).len() && n < shots.len()
                ==> (#[trigger] accepted(shots, outcomes, expected, n)[s]).sample < shots[n].sample,
    decreases n,
{
    if n > 0 {
        lemma_accepted_columns(shots, outcomes, expected, n - 1, low, high);
        let before = accepted(shots, outcomes, expected, n - 1);
        let now = accepted(shots, outcomes, expected, n);
        assert forall|s: int| 0 <= s < now.len() && n < shots.len() implies (
        #[trigger] now[s]).sample < shots[n].sample by {
            assert(shots[n - 1].sample < shots[n].sample);
            if s < before.len() {
                assert(now[s] == before[s]);
            }
        }
        assert forall|s: int| 0 <= s < now.len() implies low <= (#[trigger] now[s]).sample < high by {
            if s < before.len() {
                assert(now[s] == before[s]);
            } else {
                assert(now[s] == shots[n - 1]);
            }
        }
        assert forall|s: int, t: int| 0 <= s < t < now.len() implies (#[trigger] now[s]).sample < (
        #[trigger] now[t]).sample by {
            assert(now[s] == before[s]);
            if t < before.len() {
                assert(now[t] == before[t]);
            } else {
                assert(now[t] == shots[n - 1]);
            }
        }
    }
}

proof fn lemma_select_columns<A, K: ActiveKernels<A>>(
    k: &K,
    base: spec_fn(int, int) -> bool,
    plan: PresampledExpressionPlan,
    program: &FactoredInstructionProgram,
    expected: Seq<u8>,
    from: int,
    end: int,
    b: Block<A>,
    low: int,
    high: int,
)
    requires
        columns_ascend(b.shots, low, high),
    ensures
        match select_run(k, base, plan, program, expected, from, end, b) {
            Ok(left) => {
                &&& columns_ascend(left.shots, low, high)
                &&& left.shots.len() <= b.shots.len()
                &&& (forall|i: int| from <= i < end ==> !#[trigger] discards_at(program, b.split, i))
                    ==> same_columns(b, left)
            },
            Err(_) => true,
        },
    decreases end - from,
{
    if from < end && b.shots.len() > 0 {
        lemma_step_columns(k, base, plan, program, from, b);
        match select_step(k, base, plan, program, expected, from, b) {
            Ok(next) => {
                if discards_at(program, b.split, from) {
                    let detector = program.instructions@[from]->RecordDetector_0;
                    let outcomes = detector_outcomes(base, plan, detector, from, b);
                    let after = if b.stores_detectors {
                        with_detectors(b, detector.detector as int, outcomes)
                    } else {
                        b
                    };
                    assert(same_columns(b, after));
                    assert(columns_ascend(after.shots, low, high));
                    lemma_accepted_columns(
                        after.shots,
                        outcomes,
                        expected_at(expected, detector.detector),
                        after.shots.len() as int,
                        low,
                        high,
                    );
                    lemma_accepted_few(
                        after.shots,
                        outcomes,
                        expected_at(expected, detector.detector),
                        after.shots.len() as int,
                    );
                    assert(next.split == b.split);
                } else {
                    assert(same_columns(b, next));
                    assert(columns_ascend(next.shots, low, high));
                }
                lemma_select_columns(k, base, plan, program, expected, from + 1, end, next, low, high);
            },
            Err(_) => {},
        }
    }
}

proof fn lemma_accepted_few<A>(shots: Seq<Shot<A>>, outcomes: Seq<bool>, expected: bool, n: int)
    requires
        0 <= n,
    ensures
        accepted(shots, outcomes, expected, n).len() <= n,
    decreases n,
{
    if n > 0 {
        lemma_accepted_few(shots, outcomes, expected, n - 1);
    }
}

/// The shots that are left of a chunk take ascending columns of the chunk's noise: no two
/// of them read the same column. Where nothing is discarded, shot `s` reads column `s`.
pub proof fn law_shots_of_a_chunk_read_their_own_columns<A, K: ActiveKernels<A>>(
    k: &K,
    plan: &SamplerPlan,
    base: spec_fn(int, int) -> bool,
    keep: bool,
    shots: int,
    seeds: Seq<u64>,
    offset: int,
    local: int,
)
    requires
        0 <= offset <= shots,
        plan.options.batch_size > 0,
    ensures
        match chunk_left::<A, K>(k, plan, base, keep, shots, seeds, offset, local) {
            Some(left) => {
                &&& columns_ascend(left, offset, shots)
                &&& (forall|i: int|
                    0 <= i < plan.program.instructions@.len() ==> !#[trigger] discards_at(
                        &plan.program,
                        plan.program.use_active_components,
                        i,
                    )) ==> left.len() == shots - offset && forall|s: int|
                    0 <= s < left.len() ==> (#[trigger] left[s]).sample == offset + s
            },
            None => true,
        },
    decreases shots - offset,
{
    let batch = plan.options.batch_size as int;
    if offset < shots {
        let n = if batch < shots - offset {
            batch
        } else {
            shots - offset
        };
        let start = block_start::<A, K>(k, plan, keep, seeds[local], n, offset);
        assert(columns_ascend(start.shots, offset, offset + n));
        lemma_select_columns(
            k,
            base,
            plan.expression_plan,
            &plan.program,
            plan.options.expected_detectors@,
            0,
            plan.program.instructions@.len() as int,
            start,
            offset,
            offset + n,
        );
        law_shots_of_a_chunk_read_their_own_columns::<A, K>(
            k,
            plan,
            base,
            keep,
            shots,
            seeds,
            offset + n,
            local + 1,
        );
        match block_left::<A, K>(k, plan, base, keep, seeds[local], n, offset) {
            Ok(b) => {
                match chunk_left::<A, K>(k, plan, base, keep, shots, seeds, offset + n, local + 1) {
                    Some(rest) => {
                        let left = b.shots + rest;
                        assert forall|s: int| 0 <= s < left.len() implies offset <= (
                        #[trigger] left[s]).sample < shots by {
                            if s < b.shots.len() {
                                assert(left[s] == b.shots[s]);
                            } else {
                                assert(left[s] == rest[s - b.shots.len()]);
                            }
                        }
                        assert forall|s: int, t: int| 0 <= s < t < left.len() implies (
                        #[trigger] left[s]).sample < (#[trigger] left[t]).sample by {
                            if s >= b.shots.len() {
                                assert(left[s] == rest[s - b.shots.len()]);
                                assert(left[t] == rest[t - b.shots.len()]);
                            } else if t < b.shots.len() {
                                assert(left[s] == b.shots[s] && left[t] == b.shots[t]);
                            } else {
                                assert(left[s] == b.shots[s]);
                                assert(left[t] == rest[t - b.shots.len()]);
                            }
                        }
                    },
                    None => {},
                }
            },
            Err(_) => {},
        }
    }
}

/// The shots of `part` stand together in `whole`.
pub open spec fn stand_together<A>(part: Seq<Shot<A>>, whole: Seq<Shot<A>>) -> bool {
    exists|before: Seq<Shot<A>>, after: Seq<Shot<A>>| #[trigger] (before + part + after) == whole
}

/// Block `j` of a chunk starts at shot `j` times the batch size with seed `j` of the
/// chunk, and its shots stand together among those that are left.
pub proof fn law_blocks_take_their_own_seeds<A, K: ActiveKernels<A>>(
    k: &K,
    plan: &SamplerPlan,
    base: spec_fn(int, int) -> bool,
    keep: bool,
    shots: int,
    seeds: Seq<u64>,
    first: int,
    j: int,
)
    requires
        plan.options.batch_size > 0,
        0 <= first <= j,
        j * plan.options.batch_size < shots,
        chunk_left::<A, K>(
            k,
            plan,
            base,
            keep,
            shots,
            seeds,
            first * plan.options.batch_size,
            first,
        ) is Some,
    ensures
        ({
            let batch = plan.options.batch_size as int;
            let left = chunk_left::<A, K>(k, plan, base, keep, shots, seeds, first * batch, first)->0;
            let rest = shots - j * batch;
            let block = block_left::<A, K>(
                k,
                plan,
                base,
                keep,
                seeds[j],
                if batch < rest {
                    batch
                } else {
                    rest
                },
                j * batch,
            );
            block is Ok && stand_together(block->Ok_0.shots, left)
        }),
    decreases j - first,
{
    let batch = plan.options.batch_size as int;
    let offset = first * batch;
    assert(0 <= offset <= j * batch) by (nonlinear_arith)
        requires
            0 <= first <= j,
            0 < batch,
            offset == first * batch,
    ;
    let n = if batch < shots - offset {
        batch
    } else {
        shots - offset
    };
    let block = block_left::<A, K>(k, plan, base, keep, seeds[first], n, offset);
    let left = chunk_left::<A, K>(k, plan, base, keep, shots, seeds, offset, first)->0;
    let rest = chunk_left::<A, K>(k, plan, base, keep, shots, seeds, offset + n, first + 1)->0;
    assert(left == block->Ok_0.shots + rest);
    if first == j {
        let none = Seq::<Shot<A>>::empty();
        assert(none + block->Ok_0.shots + rest =~= left);
        assert(stand_together(block->Ok_0.shots, left));
    } else {
        assert((first + 1) * batch == offset + batch && offset + batch <= j * batch)
            by (nonlinear_arith)
            requires
                0 <= first,
                first + 1 <= j,
                0 < batch,
                offset == first * batch,
        ;
        assert(n == batch);
        law_blocks_take_their_own_seeds::<A, K>(k, plan, base, keep, shots, seeds, first + 1, j);
        let remaining = shots - j * batch;
        let mine = block_left::<A, K>(
            k,
            plan,
            base,
            keep,
            seeds[j],
            if batch < remaining {
                batch
            } else {
                remaining
            },
            j * batch,
        );
        let (before, after) = choose|before: Seq<Shot<A>>, after: Seq<Shot<A>>| #[trigger]
            (before + mine->Ok_0.shots + after) == rest;
        assert((block->Ok_0.shots + before) + mine->Ok_0.shots + after =~= left);
        assert(stand_together(mine->Ok_0.shots, left));
    }
}

} // verus!
