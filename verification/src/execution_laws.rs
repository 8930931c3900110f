//! What holds of whole executions.
use vstd::prelude::*;
use crate::kernels::ActiveKernels;
use crate::model::{
    assign, coins, detector_outcomes, measure, measure_branch, merge_from, merge_one, part_lanes, run,
    sign_refusal, signs, step, step_whole, with_lanes, with_records, with_values, write_branch,
    write_measurement, Block, Outcome, Part,
};
use crate::postselect::{lemma_same_shots, plan_fits};
use crate::postselect_model::{accepted, select_run, select_step};
use crate::presampled_expression::{
    bulk_plan, expresses, lemma_selected, plans_program, PresampledExpressionPlan,
};
use crate::program::{
    discards, FactoredInstruction, FactoredInstructionProgram, MeasurementKernel,
};
use crate::survive::uses;
use crate::symbolic::SymbolicBoolEvaluationPlan;

verus! {

/// Where no detector discards, selecting is running.
pub proof fn law_nothing_selected_is_a_run<A, K: ActiveKernels<A>>(
    k: &K,
    base: spec_fn(int, int) -> bool,
    plan: PresampledExpressionPlan,
    program: &FactoredInstructionProgram,
    expected: Seq<u8>,
    from: int,
    end: int,
    b: Block<A>,
)
    requires
        b.shots.len() > 0,
        0 <= from <= end <= program.instructions@.len(),
        !program.postselects(),
    ensures
        select_run(k, base, plan, program, expected, from, end, b) == run(
            k,
            base,
            plan,
            program,
            from,
            end,
            b,
        ),
    decreases end - from,
{
    if from < end {
        assert(!discards(program.instructions@[from]));
        lemma_same_shots(k, base, plan, program, from, b);
        match step(k, base, plan, program, from, b) {
            Ok(next) => {
                law_nothing_selected_is_a_run(k, base, plan, program, expected, from + 1, end, next);
            },
            Err(_) => {},
        }
    }
}

/// A run keeps every shot.
pub proof fn lemma_run_keeps_shots<A, K: ActiveKernels<A>>(
    k: &K,
    base: spec_fn(int, int) -> bool,
    plan: PresampledExpressionPlan,
    program: &FactoredInstructionProgram,
    from: int,
    end: int,
    b: Block<A>,
)
    requires
        0 <= from <= end <= program.instructions@.len(),
    ensures
        match run(k, base, plan, program, from, end, b) {
            Ok(after) => after.shots.len() == b.shots.len(),
            Err(_) => true,
        },
    decreases end - from,
{
    if from < end {
        lemma_same_shots(k, base, plan, program, from, b);
        match step(k, base, plan, program, from, b) {
            Ok(next) => {
                lemma_run_keeps_shots(k, base, plan, program, from + 1, end, next);
            },
            Err(_) => {},
        }
    }
}

/// The block with another layout of the amplitudes.
pub open spec fn laid_out<A>(b: Block<A>, shot_major: bool) -> Block<A> {
    Block { shot_major, ..b }
}

/// The outcomes differ in the layout alone, or both stop.
pub open spec fn same_but_layout<A>(x: Outcome<A>, y: Outcome<A>, shot_major: bool) -> bool {
    match (x, y) {
        (Ok(after_x), Ok(after_y)) => after_x == laid_out(after_y, shot_major),
        (Err(_), Err(_)) => true,
        _ => false,
    }
}

proof fn lemma_merge_layout<A, K: ActiveKernels<A>>(
    k: &K,
    b: Block<A>,
    shot_major: bool,
    list: Seq<usize>,
    target: int,
    from: int,
    end: int,
)
    ensures
        same_but_layout(
            merge_from(k, laid_out(b, shot_major), list, target, from, end),
            merge_from(k, b, list, target, from, end),
            shot_major,
        ),
    decreases end - from,
{
    if from < end {
        let source = list[from] as int;
        match (merge_one(k, laid_out(b, shot_major), target, source), merge_one(k, b, target, source)) {
            (Ok(x), Ok(y)) => {
                assert(x.shots =~= y.shots);
                lemma_merge_layout(k, y, shot_major, list, target, from + 1, end);
            },
            _ => {},
        }
    }
}

proof fn lemma_assign_layout<A>(b: Block<A>, shot_major: bool, c: i32, bits: Seq<bool>)
    ensures
        same_but_layout(assign(laid_out(b, shot_major), c, bits), assign(b, c, bits), shot_major),
{
    let x = laid_out(b, shot_major);
    assert(with_values(x, c, bits).shots =~= with_values(b, c, bits).shots);
}

proof fn lemma_write_layout<A>(
    b: Block<A>,
    shot_major: bool,
    record: Option<i32>,
    bits: Seq<bool>,
    condition: Option<i32>,
)
    ensures
        same_but_layout(
            write_measurement(laid_out(b, shot_major), record, bits, condition),
            write_measurement(b, record, bits, condition),
            shot_major,
        ),
{
    let x = laid_out(b, shot_major);
    match record {
        Some(id) => {
            assert(with_records(x, id as int, bits).shots =~= with_records(b, id as int, bits).shots);
            if condition is Some {
                lemma_assign_layout(with_records(b, id as int, bits), shot_major, condition->0, bits);
            }
        },
        None => {
            if condition is Some {
                lemma_assign_layout(b, shot_major, condition->0, bits);
            }
        },
    }
}

proof fn lemma_branch_layout<A>(
    base: spec_fn(int, int) -> bool,
    plan: PresampledExpressionPlan,
    i: int,
    b: Block<A>,
    shot_major: bool,
    branches: Seq<bool>,
    branch: i32,
    outcome_plan: SymbolicBoolEvaluationPlan,
    record: Option<i32>,
    condition: Option<i32>,
)
    ensures
        same_but_layout(
            write_branch(
                base,
                plan,
                i,
                laid_out(b, shot_major),
                branches,
                branch,
                outcome_plan,
                record,
                condition,
            ),
            write_branch(base, plan, i, b, branches, branch, outcome_plan, record, condition),
            shot_major,
        ),
{
    let x = laid_out(b, shot_major);
    assert(signs(base, plan, i, x) =~= signs(base, plan, i, b));
    let direct_x = Seq::new(x.shots.len(), |s: int| branches[s] != outcome_plan.constant);
    let direct = Seq::new(b.shots.len(), |s: int| branches[s] != outcome_plan.constant);
    assert(direct_x =~= direct);
    lemma_write_layout(b, shot_major, record, direct, condition);
    lemma_write_layout(b, shot_major, record, signs(base, plan, i, b), condition);
}

proof fn lemma_lanes_layout<A>(b: Block<A>, shot_major: bool, j: int, part: Part, lanes: Seq<Seq<A>>)
    ensures
        with_lanes(laid_out(b, shot_major), j, part, lanes) == laid_out(
            with_lanes(b, j, part, lanes),
            shot_major,
        ),
{
    assert(with_lanes(laid_out(b, shot_major), j, part, lanes).shots =~= with_lanes(
        b,
        j,
        part,
        lanes,
    ).shots);
}

proof fn lemma_measure_layout<A, K: ActiveKernels<A>>(
    k: &K,
    b: Block<A>,
    shot_major: bool,
    j: int,
    kernel: MeasurementKernel,
    branch: i32,
)
    ensures
        match (
            measure_branch(k, laid_out(b, shot_major), j, kernel, branch),
            measure_branch(k, b, j, kernel, branch),
        ) {
            (Ok((after_x, bits_x)), Ok((after, bits))) => after_x == laid_out(after, shot_major)
                && bits_x == bits,
            (Err(_), Err(_)) => true,
            _ => false,
        },
{
    let x = laid_out(b, shot_major);
    assert(part_lanes(x, j) =~= part_lanes(b, j));
    match (measure(k, x, j, kernel), measure(k, b, j, kernel)) {
        (Ok((mid_x, bits_x)), Ok((mid, bits))) => {
            assert(mid_x.shots =~= mid.shots);
            assert(mid_x == laid_out(mid, shot_major));
            lemma_assign_layout(mid, shot_major, branch, bits);
        },
        _ => {},
    }
}

#[verifier::rlimit(60)]
#[verifier::spinoff_prover]
proof fn lemma_whole_layout<A, K: ActiveKernels<A>>(
    k: &K,
    base: spec_fn(int, int) -> bool,
    plan: PresampledExpressionPlan,
    ins: FactoredInstruction,
    i: int,
    b: Block<A>,
    shot_major: bool,
)
    ensures
        same_but_layout(
            step_whole(k, base, plan, ins, i, laid_out(b, shot_major)),
            step_whole(k, base, plan, ins, i, b),
            shot_major,
        ),
{
    let x = laid_out(b, shot_major);
    assert(signs(base, plan, i, x) =~= signs(base, plan, i, b));
    assert(sign_refusal(plan, i, x) == sign_refusal(plan, i, b));
    match ins {
        FactoredInstruction::RecordMeasurement(inst) => {
            if inst.exp_val is None {
                lemma_write_layout(
                    b,
                    shot_major,
                    inst.record,
                    signs(base, plan, i, b),
                    inst.record_condition,
                );
            }
        },
        FactoredInstruction::RecordDetector(inst) => {
            assert(detector_outcomes(base, plan, inst, i, x) =~= detector_outcomes(
                base,
                plan,
                inst,
                i,
                b,
            ));
        },
        FactoredInstruction::MeasurePrecomputedActivePauli(inst) => {
            lemma_measure_layout(k, b, shot_major, 0, inst.kernel, inst.branch);
            match measure_branch(k, b, 0, inst.kernel, inst.branch) {
                Ok((after, bits)) => {
                    lemma_branch_layout(
                        base,
                        plan,
                        i,
                        after,
                        shot_major,
                        bits,
                        inst.branch,
                        inst.outcome_plan,
                        inst.record,
                        inst.record_condition,
                    );
                },
                Err(_) => {},
            }
        },
        FactoredInstruction::IntroduceDormantMeasurementBranch(inst) => {
            let (next, drawn) = coins(k, b);
            let (_, drawn_x) = coins(k, x);
            assert(drawn_x =~= drawn);
            let mid = Block { rng: next, ..b };
            assert(laid_out(mid, shot_major) == (Block { rng: next, ..x }));
            lemma_assign_layout(mid, shot_major, inst.branch, drawn);
            match assign(mid, inst.branch, drawn) {
                Ok(after) => {
                    lemma_branch_layout(
                        base,
                        plan,
                        i,
                        after,
                        shot_major,
                        drawn,
                        inst.branch,
                        inst.outcome_plan,
                        inst.record,
                        inst.record_condition,
                    );
                },
                Err(_) => {},
            }
        },
        _ => {},
    }
    match (step_whole(k, base, plan, ins, i, x), step_whole(k, base, plan, ins, i, b)) {
        (Ok(after_x), Ok(after)) => {
            assert(after_x.shots =~= after.shots);
        },
        _ => {},
    }
}

#[verifier::rlimit(60)]
#[verifier::spinoff_prover]
proof fn lemma_step_layout<A, K: ActiveKernels<A>>(
    k: &K,
    base: spec_fn(int, int) -> bool,
    plan: PresampledExpressionPlan,
    program: &FactoredInstructionProgram,
    i: int,
    b: Block<A>,
    shot_major: bool,
)
    ensures
        same_but_layout(
            step(k, base, plan, program, i, laid_out(b, shot_major)),
            step(k, base, plan, program, i, b),
            shot_major,
        ),
{
    let parts = program.active_component_plan->0;
    let payload = parts.instruction_steps@[i].payload as int;
    let ins = program.instructions@[i];
    let x = laid_out(b, shot_major);
    lemma_whole_layout(k, base, plan, ins, i, b, shot_major);
    assert(signs(base, plan, i, x) =~= signs(base, plan, i, b));
    assert(sign_refusal(plan, i, x) == sign_refusal(plan, i, b));
    if b.split {
        let list = parts.merge_components@;
        let rotation = parts.rotations@[payload];
        lemma_merge_layout(
            k,
            b,
            shot_major,
            list,
            rotation.component as int,
            rotation.merge_offset as int + 1,
            rotation.merge_offset as int + rotation.merge_count as int,
        );
        let measurement = parts.measurements@[payload];
        let at = measurement.component as int;
        let from = measurement.merge_offset as int + 1;
        let end = measurement.merge_offset as int + measurement.merge_count as int;
        lemma_merge_layout(k, b, shot_major, list, at, from, end);
        match (ins, merge_from(k, b, list, at, from, end)) {
            (FactoredInstruction::MeasurePrecomputedActivePauli(inst), Ok(merged)) => {
                lemma_measure_layout(k, merged, shot_major, at, measurement.kernel, inst.branch);
                match measure_branch(k, merged, at, measurement.kernel, inst.branch) {
                    Ok((after, bits)) => {
                        let off = Part { active: false, ..after.parts[at] };
                        let none = Seq::new(after.shots.len(), |s: int| Seq::<A>::empty());
                        let shut = with_lanes(after, at, off, none);
                        lemma_lanes_layout(after, shot_major, at, off, none);
                        let after_x = laid_out(after, shot_major);
                        let none_x = Seq::new(after_x.shots.len(), |s: int| Seq::<A>::empty());
                        assert(none_x =~= none);
                        lemma_branch_layout(
                            base,
                            plan,
                            i,
                            if measurement.deactivate_after {
                                shut
                            } else {
                                after
                            },
                            shot_major,
                            bits,
                            inst.branch,
                            inst.outcome_plan,
                            inst.record,
                            inst.record_condition,
                        );
                    },
                    Err(_) => {},
                }
            },
            _ => {},
        }
        match (step(k, base, plan, program, i, x), step(k, base, plan, program, i, b)) {
            (Ok(after_x), Ok(after)) => {
                assert(after_x.shots =~= after.shots);
            },
            _ => {},
        }
    }
}

/// The layout of the amplitudes is not seen in the results of a run.
pub proof fn law_layout_changes_nothing<A, K: ActiveKernels<A>>(
    k: &K,
    base: spec_fn(int, int) -> bool,
    plan: PresampledExpressionPlan,
    program: &FactoredInstructionProgram,
    expected: Seq<u8>,
    from: int,
    end: int,
    b: Block<A>,
    shot_major: bool,
)
    ensures
        same_but_layout(
            select_run(k, base, plan, program, expected, from, end, laid_out(b, shot_major)),
            select_run(k, base, plan, program, expected, from, end, b),
            shot_major,
        ),
    decreases end - from,
{
    if from < end && b.shots.len() > 0 {
        let x = laid_out(b, shot_major);
        lemma_step_layout(k, base, plan, program, from, b, shot_major);
        if crate::postselect_model::discards_at(program, b.split, from) {
            let detector = program.instructions@[from]->RecordDetector_0;
            assert(detector_outcomes(base, plan, detector, from, x) =~= detector_outcomes(
                base,
                plan,
                detector,
                from,
                b,
            ));
            let outcomes = detector_outcomes(base, plan, detector, from, b);
            let id = detector.detector as int;
            assert(crate::model::with_detectors(x, id, outcomes).shots
                =~= crate::model::with_detectors(b, id, outcomes).shots);
        }
        match (
            select_step(k, base, plan, program, expected, from, x),
            select_step(k, base, plan, program, expected, from, b),
        ) {
            (Ok(next_x), Ok(next)) => {
                assert(next_x == laid_out(next, shot_major));
                law_layout_changes_nothing(
                    k,
                    base,
                    plan,
                    program,
                    expected,
                    from + 1,
                    end,
                    next,
                    shot_major,
                );
            },
            _ => {},
        }
    }
}

proof fn lemma_accepted_bound<A>(
    shots: Seq<crate::model::Shot<A>>,
    outcomes: Seq<bool>,
    expected: bool,
    n: int,
)
    requires
        0 <= n,
    ensures
        accepted(shots, outcomes, expected, n).len() <= n,
    decreases n,
{
    if n > 0 {
        lemma_accepted_bound(shots, outcomes, expected, n - 1);
    }
}

/// No run adds shots.
pub proof fn law_selection_only_discards<A, K: ActiveKernels<A>>(
    k: &K,
    base: spec_fn(int, int) -> bool,
    plan: PresampledExpressionPlan,
    program: &FactoredInstructionProgram,
    expected: Seq<u8>,
    from: int,
    end: int,
    b: Block<A>,
)
    ensures
        match select_run(k, base, plan, program, expected, from, end, b) {
            Ok(left) => left.shots.len() <= b.shots.len(),
            Err(_) => true,
        },
    decreases end - from,
{
    if from < end && b.shots.len() > 0 {
        lemma_same_shots(k, base, plan, program, from, b);
        match select_step(k, base, plan, program, expected, from, b) {
            Ok(next) => {
                if crate::postselect_model::discards_at(program, b.split, from) {
                    let detector = program.instructions@[from]->RecordDetector_0;
                    lemma_accepted_bound(
                        if b.stores_detectors {
                            crate::model::with_detectors(
                                b,
                                detector.detector as int,
                                crate::model::detector_outcomes(base, plan, detector, from, b),
                            ).shots
                        } else {
                            b.shots
                        },
                        crate::model::detector_outcomes(base, plan, detector, from, b),
                        crate::postselect_model::expected_at(expected, detector.detector),
                        b.shots.len() as int,
                    );
                }
                law_selection_only_discards(k, base, plan, program, expected, from + 1, end, next);
            },
            Err(_) => {},
        }
    }
}

/// A prepared expression plan belongs to its program.
pub proof fn lemma_prepared_plan_fits(
    plan: PresampledExpressionPlan,
    program: &FactoredInstructionProgram,
    words: Seq<u64>,
)
    requires
        program.wf(),
        plans_program(plan, program, words),
    ensures
        plan_fits(plan, program),
        plan.block_expression_last_use_by_index@.len() == plan.block_expressions@.len(),
{
    crate::driver::lemma_residuals(plan, program, words);
    assert forall|i: int, q: int|
        0 <= i < program.instructions@.len() && 0 <= q
            < plan.instruction_expressions@[i].residual_plan.conditions@.len() implies uses(
        program.instructions@[i],
        #[trigger] plan.instruction_expressions@[i].residual_plan.conditions@[q],
    ) by {
        let ins = program.instructions@[i];
        let conditions = plan.instruction_expressions@[i].residual_plan.conditions@;
        assert(ins.wf());
        assert(expresses(plan.instruction_expressions@[i], ins, words));
        match bulk_plan(ins) {
            Some(source) => {
                lemma_selected(source.conditions@, words, false);
                assert(conditions.contains(conditions[q]));
            },
            None => {},
        }
    }
    assert forall|i: int| 0 <= i < plan.instruction_expressions@.len() implies (
    #[trigger] plan.instruction_expressions@[i]).block_expression_index
        < plan.block_expressions@.len() by {
        assert(expresses(plan.instruction_expressions@[i], program.instructions@[i], words));
    }
}

} // verus!
