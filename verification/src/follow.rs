//! The executor's block follows the block that postselection means: it may hold
//! discarded shots and stale columns besides, but its live shots agree with the
//! shots that are left, on everything that is still read.
use vstd::prelude::*;
use crate::bits::row_bit;
use crate::compaction::survivors;
use crate::kernels::ActiveKernels;
use crate::model::{
    assign, coins, detector_outcomes, detector_refusal, measure, measure_branch, merge_from,
    part_lanes, run, sign_refusal, signs, step, step_whole, values_match, with_detectors,
    write_branch, write_detector, write_measurement, Block, Part, Shot,
};
use crate::postselect_model::{
    accepted, agrees, discard_step, is_pure, lemma_agrees_detector, lemma_agrees_lanes,
    lemma_agrees_next, lemma_agrees_sign, lemma_agrees_value, lemma_known_step, lemma_merge_agrees,
    lemma_pure_step, lemma_select_split, lemma_write_agrees, may_assign, residuals_within,
    select_run, select_step, single_assignment, unclaimed,
};
use crate::presampled_expression::PresampledExpressionPlan;
use crate::program::{
    ActiveComponentStepKind, FactoredInstruction, FactoredInstructionProgram, RecordDetector,
};
use crate::runs::{is_promotion, is_rotation, mismatched, stops_at, turning};
use crate::symbolic::SymbolicBoolEvaluationPlan;

verus! {

/// The shots of `x` at the listed places agree with the shots of `y`, one by one.
pub open spec fn follows<A>(
    program: &FactoredInstructionProgram,
    plan: PresampledExpressionPlan,
    retained: Seq<Vec<i32>>,
    i: int,
    base_x: spec_fn(int, int) -> bool,
    base_y: spec_fn(int, int) -> bool,
    x: Block<A>,
    y: Block<A>,
    live: Seq<int>,
) -> bool {
    &&& x == (Block { shots: x.shots, ..y })
    &&& live.len() == y.shots.len()
    &&& forall|j: int|
        0 <= j < live.len() ==> 0 <= #[trigger] live[j] < x.shots.len() && agrees(
            program,
            plan,
            retained,
            i,
            base_x,
            base_y,
            x.shots[live[j]],
            y.shots[j],
        )
}

/// Both blocks have the same shots, as far as they are still read.
pub open spec fn pairwise<A>(
    program: &FactoredInstructionProgram,
    plan: PresampledExpressionPlan,
    retained: Seq<Vec<i32>>,
    i: int,
    base_x: spec_fn(int, int) -> bool,
    base_y: spec_fn(int, int) -> bool,
    x: Block<A>,
    y: Block<A>,
) -> bool {
    &&& x == (Block { shots: x.shots, ..y })
    &&& x.shots.len() == y.shots.len()
    &&& forall|s: int|
        0 <= s < x.shots.len() ==> agrees(
            program,
            plan,
            retained,
            i,
            base_x,
            base_y,
            #[trigger] x.shots[s],
            y.shots[s],
        )
}

/// Agreement is transitive.
pub proof fn lemma_agrees_trans<A>(
    program: &FactoredInstructionProgram,
    plan: PresampledExpressionPlan,
    retained: Seq<Vec<i32>>,
    i: int,
    base_a: spec_fn(int, int) -> bool,
    base_b: spec_fn(int, int) -> bool,
    base_c: spec_fn(int, int) -> bool,
    a: Shot<A>,
    b: Shot<A>,
    c: Shot<A>,
)
    requires
        agrees(program, plan, retained, i, base_a, base_b, a, b),
        agrees(program, plan, retained, i, base_b, base_c, b, c),
    ensures
        agrees(program, plan, retained, i, base_a, base_c, a, c),
{
    assert forall|d: i32|
        a.values.contains_key(d) && #[trigger] crate::survive::used_from(program, d, i) implies
        a.values[d] == c.values[d] by {
        assert(a.values.dom().contains(d));
        assert(b.values.dom().contains(d));
        assert(b.values.contains_key(d));
    }
}

/// The shots have as many records as the block says.
pub open spec fn records_counted<A>(b: Block<A>) -> bool {
    &&& 0 <= b.nrecords
    &&& 0 <= b.ndetectors
    &&& forall|s: int| 0 <= s < b.shots.len() ==> (#[trigger] b.shots[s]).records.len() == b.nrecords
}

/// An instruction that draws nothing keeps the blocks together.
pub proof fn lemma_pure_follows<A, K: ActiveKernels<A>>(
    k: &K,
    program: &FactoredInstructionProgram,
    plan: PresampledExpressionPlan,
    retained: Seq<Vec<i32>>,
    i: int,
    base_x: spec_fn(int, int) -> bool,
    base_y: spec_fn(int, int) -> bool,
    x: Block<A>,
    y: Block<A>,
    live: Seq<int>,
)
    requires
        residuals_within(plan, program),
        single_assignment(program),
        0 <= i < program.instructions@.len(),
        is_pure(program.instructions@[i]),
        unclaimed(program, i, x),
        records_counted(x),
        follows(program, plan, retained, i, base_x, base_y, x, y, live),
        live.len() > 0,
    ensures
        match (step(k, base_x, plan, program, i, x), step(k, base_y, plan, program, i, y)) {
            (Ok(after_x), Ok(after_y)) => {
                &&& follows(
                    program,
                    plan,
                    retained,
                    i + 1,
                    base_x,
                    base_y,
                    after_x,
                    after_y,
                    live,
                )
                &&& after_x.shots.len() == x.shots.len()
            },
            (Err(t), Err(u)) => t == u,
            _ => false,
        },
{
    assert(0 <= live[0] < x.shots.len());
    lemma_pure_step(
        k,
        program,
        plan,
        retained,
        i,
        base_x,
        base_y,
        x,
        y,
        live[0],
        0,
    );
    match (step(k, base_x, plan, program, i, x), step(k, base_y, plan, program, i, y)) {
        (Ok(after_x), Ok(after_y)) => {
            assert forall|j: int| 0 <= j < live.len() implies 0 <= #[trigger] live[j]
                < after_x.shots.len() && agrees(
                program,
                plan,
                retained,
                i + 1,
                base_x,
                base_y,
                after_x.shots[live[j]],
                after_y.shots[j],
            ) by {
                lemma_pure_step(
                    k,
                    program,
                    plan,
                    retained,
                    i,
                    base_x,
                    base_y,
                    x,
                    y,
                    live[j],
                    j,
                );
            }
        },
        _ => {},
    }
}

// ---------------------------------------------------------------------------
// Instructions that draw
// ---------------------------------------------------------------------------
/// Both blocks hold the same values of a symbol.
spec fn same_values<A>(x: Block<A>, y: Block<A>, c: i32) -> bool {
    forall|s: int|
        0 <= s < x.shots.len() ==> (#[trigger] x.shots[s]).values[c] == y.shots[s].values[c]
}

/// A symbol can be written alike: it has no values yet, or both blocks hold the same.
spec fn writable<A>(x: Block<A>, y: Block<A>, c: Option<i32>) -> bool {
    c is Some ==> !x.known.contains(c->0) || same_values(x, y, c->0)
}

proof fn lemma_assign_pairwise<A>(
    program: &FactoredInstructionProgram,
    plan: PresampledExpressionPlan,
    retained: Seq<Vec<i32>>,
    i: int,
    base_x: spec_fn(int, int) -> bool,
    base_y: spec_fn(int, int) -> bool,
    x: Block<A>,
    y: Block<A>,
    c: i32,
    bits: Seq<bool>,
)
    requires
        pairwise(program, plan, retained, i, base_x, base_y, x, y),
        !x.known.contains(c),
    ensures
        match (assign(x, c, bits), assign(y, c, bits)) {
            (Ok(after_x), Ok(after_y)) => {
                &&& pairwise(program, plan, retained, i, base_x, base_y, after_x, after_y)
                &&& after_x == (Block { shots: after_x.shots, known: x.known.insert(c), ..x })
                &&& after_x.shots.len() == x.shots.len()
                &&& same_values(after_x, after_y, c)
            },
            (Err(t), Err(u)) => t == u,
            _ => false,
        },
{
    match (assign(x, c, bits), assign(y, c, bits)) {
        (Ok(after_x), Ok(after_y)) => {
            assert forall|s: int| 0 <= s < after_x.shots.len() implies agrees(
                program,
                plan,
                retained,
                i,
                base_x,
                base_y,
                #[trigger] after_x.shots[s],
                after_y.shots[s],
            ) by {
                lemma_agrees_value(
                    program,
                    plan,
                    retained,
                    i,
                    base_x,
                    base_y,
                    x.shots[s],
                    y.shots[s],
                    c,
                    bits[s],
                );
            }
        },
        _ => {},
    }
}

proof fn lemma_write_pairwise<A>(
    program: &FactoredInstructionProgram,
    plan: PresampledExpressionPlan,
    retained: Seq<Vec<i32>>,
    i: int,
    base_x: spec_fn(int, int) -> bool,
    base_y: spec_fn(int, int) -> bool,
    x: Block<A>,
    y: Block<A>,
    record: Option<i32>,
    bits: Seq<bool>,
    condition: Option<i32>,
)
    requires
        pairwise(program, plan, retained, i, base_x, base_y, x, y),
        writable(x, y, condition),
        x.shots.len() > 0,
        0 <= x.nrecords,
    ensures
        match (write_measurement(x, record, bits, condition), write_measurement(y, record, bits, condition)) {
            (Ok(after_x), Ok(after_y)) => pairwise(
                program,
                plan,
                retained,
                i,
                base_x,
                base_y,
                after_x,
                after_y,
            ),
            (Err(t), Err(u)) => t == u,
            _ => false,
        },
{
    assert(agrees(program, plan, retained, i, base_x, base_y, x.shots[0], y.shots[0]));
    // A symbol that has values already is compared, not written.
    let held = condition is Some && x.known.contains(condition->0);
    let fresh = if held {
        None
    } else {
        condition
    };
    lemma_write_agrees(
        program,
        plan,
        retained,
        i,
        base_x,
        base_y,
        x,
        y,
        record,
        bits,
        bits,
        fresh,
        0,
        0,
    );
    if held {
        let c = condition->0;
        match (write_measurement(x, record, bits, None), write_measurement(y, record, bits, None)) {
            (Ok(mid_x), Ok(mid_y)) => {
                assert forall|s: int| 0 <= s < x.shots.len() implies (
                #[trigger] mid_x.shots[s]).values[c] == mid_y.shots[s].values[c] by {
                    assert(x.shots[s].values[c] == y.shots[s].values[c]);
                }
                assert(values_match(mid_x, c, bits) == values_match(mid_y, c, bits)) by {
                    if values_match(mid_x, c, bits) {
                        assert forall|s: int| 0 <= s < mid_y.shots.len() implies (
                        #[trigger] mid_y.shots[s]).values[c] == bits[s] by {
                            assert(mid_x.shots[s].values[c] == bits[s]);
                        }
                    }
                }
            },
            _ => {},
        }
    }
    match (write_measurement(x, record, bits, condition), write_measurement(y, record, bits, condition)) {
        (Ok(after_x), Ok(after_y)) => {
            assert forall|s: int| 0 <= s < after_x.shots.len() implies agrees(
                program,
                plan,
                retained,
                i,
                base_x,
                base_y,
                #[trigger] after_x.shots[s],
                after_y.shots[s],
            ) by {
                assert(agrees(program, plan, retained, i, base_x, base_y, x.shots[s], y.shots[s]));
                lemma_write_agrees(
                    program,
                    plan,
                    retained,
                    i,
                    base_x,
                    base_y,
                    x,
                    y,
                    record,
                    bits,
                    bits,
                    fresh,
                    s,
                    s,
                );
            }
        },
        _ => {},
    }
}

proof fn lemma_next_pairwise<A>(
    program: &FactoredInstructionProgram,
    plan: PresampledExpressionPlan,
    retained: Seq<Vec<i32>>,
    i: int,
    base_x: spec_fn(int, int) -> bool,
    base_y: spec_fn(int, int) -> bool,
    x: Block<A>,
    y: Block<A>,
)
    requires
        pairwise(program, plan, retained, i, base_x, base_y, x, y),
    ensures
        pairwise(program, plan, retained, i + 1, base_x, base_y, x, y),
{
    assert forall|s: int| 0 <= s < x.shots.len() implies agrees(
        program,
        plan,
        retained,
        i + 1,
        base_x,
        base_y,
        #[trigger] x.shots[s],
        y.shots[s],
    ) by {
        lemma_agrees_next(program, plan, retained, i, i + 1, base_x, base_y, x.shots[s], y.shots[s]);
    }
}

proof fn lemma_branch_pairwise<A>(
    program: &FactoredInstructionProgram,
    plan: PresampledExpressionPlan,
    retained: Seq<Vec<i32>>,
    i: int,
    base_x: spec_fn(int, int) -> bool,
    base_y: spec_fn(int, int) -> bool,
    x: Block<A>,
    y: Block<A>,
    branches: Seq<bool>,
    branch: i32,
    outcome_plan: SymbolicBoolEvaluationPlan,
    record: Option<i32>,
    condition: Option<i32>,
)
    requires
        residuals_within(plan, program),
        0 <= i < program.instructions@.len(),
        pairwise(program, plan, retained, i, base_x, base_y, x, y),
        writable(x, y, condition),
        x.shots.len() > 0,
        0 <= x.nrecords,
    ensures
        match (
            write_branch(base_x, plan, i, x, branches, branch, outcome_plan, record, condition),
            write_branch(base_y, plan, i, y, branches, branch, outcome_plan, record, condition),
        ) {
            (Ok(after_x), Ok(after_y)) => pairwise(
                program,
                plan,
                retained,
                i + 1,
                base_x,
                base_y,
                after_x,
                after_y,
            ),
            (Err(t), Err(u)) => t == u,
            _ => false,
        },
{
    let signs_x = signs(base_x, plan, i, x);
    let signs_y = signs(base_y, plan, i, y);
    assert(signs_x =~= signs_y) by {
        assert forall|s: int| 0 <= s < x.shots.len() implies signs_x[s] == signs_y[s] by {
            assert(agrees(program, plan, retained, i, base_x, base_y, x.shots[s], y.shots[s]));
            lemma_agrees_sign(program, plan, retained, i, base_x, base_y, x.shots[s], y.shots[s]);
        }
    }
    assert(sign_refusal(plan, i, x) == sign_refusal(plan, i, y));
    let direct_x = Seq::new(x.shots.len(), |s: int| branches[s] != outcome_plan.constant);
    let direct_y = Seq::new(y.shots.len(), |s: int| branches[s] != outcome_plan.constant);
    assert(direct_x =~= direct_y);
    lemma_next_pairwise(program, plan, retained, i, base_x, base_y, x, y);
    lemma_write_pairwise(
        program,
        plan,
        retained,
        i + 1,
        base_x,
        base_y,
        x,
        y,
        record,
        direct_x,
        condition,
    );
    lemma_write_pairwise(
        program,
        plan,
        retained,
        i + 1,
        base_x,
        base_y,
        x,
        y,
        record,
        signs_x,
        condition,
    );
}

/// Measuring a part does the same to both.
proof fn lemma_measure_pairwise<A, K: ActiveKernels<A>>(
    k: &K,
    program: &FactoredInstructionProgram,
    plan: PresampledExpressionPlan,
    retained: Seq<Vec<i32>>,
    i: int,
    base_x: spec_fn(int, int) -> bool,
    base_y: spec_fn(int, int) -> bool,
    x: Block<A>,
    y: Block<A>,
    j: int,
    kernel: crate::program::MeasurementKernel,
    branch: i32,
)
    requires
        pairwise(program, plan, retained, i, base_x, base_y, x, y),
        !x.known.contains(branch),
    ensures
        match (measure_branch(k, x, j, kernel, branch), measure_branch(k, y, j, kernel, branch)) {
            (Ok((after_x, bits_x)), Ok((after_y, bits_y))) => {
                &&& bits_x == bits_y
                &&& pairwise(program, plan, retained, i, base_x, base_y, after_x, after_y)
                &&& after_x.known == x.known.insert(branch)
                &&& after_x.nrecords == x.nrecords
                &&& after_x.shots.len() == x.shots.len()
                &&& same_values(after_x, after_y, branch)
            },
            (Err(t), Err(u)) => t == u,
            _ => false,
        },
{
    assert(part_lanes(x, j) =~= part_lanes(y, j)) by {
        assert forall|s: int| 0 <= s < x.shots.len() implies part_lanes(x, j)[s] == part_lanes(
            y,
            j,
        )[s] by {
            assert(agrees(program, plan, retained, i, base_x, base_y, x.shots[s], y.shots[s]));
        }
    }
    match (measure(k, x, j, kernel), measure(k, y, j, kernel)) {
        (Ok((mid_x, bits_x)), Ok((mid_y, bits_y))) => {
            assert(mid_x.parts =~= mid_y.parts);
            assert(bits_x == bits_y);
            assert forall|s: int| 0 <= s < mid_x.shots.len() implies agrees(
                program,
                plan,
                retained,
                i,
                base_x,
                base_y,
                #[trigger] mid_x.shots[s],
                mid_y.shots[s],
            ) by {
                assert(agrees(program, plan, retained, i, base_x, base_y, x.shots[s], y.shots[s]));
                assert(mid_x.shots[s].lanes =~= mid_y.shots[s].lanes);
                lemma_agrees_lanes(
                    program,
                    plan,
                    retained,
                    i,
                    base_x,
                    base_y,
                    x.shots[s],
                    y.shots[s],
                    mid_x.shots[s],
                    mid_y.shots[s],
                );
            }
            lemma_assign_pairwise(
                program,
                plan,
                retained,
                i,
                base_x,
                base_y,
                mid_x,
                mid_y,
                branch,
                bits_x,
            );
        },
        _ => {},
    }
}

/// Merging parts does the same to both.
proof fn lemma_merge_pairwise<A, K: ActiveKernels<A>>(
    k: &K,
    program: &FactoredInstructionProgram,
    plan: PresampledExpressionPlan,
    retained: Seq<Vec<i32>>,
    i: int,
    base_x: spec_fn(int, int) -> bool,
    base_y: spec_fn(int, int) -> bool,
    x: Block<A>,
    y: Block<A>,
    list: Seq<usize>,
    target: int,
    from: int,
    end: int,
)
    requires
        pairwise(program, plan, retained, i, base_x, base_y, x, y),
        x.shots.len() > 0,
    ensures
        match (merge_from(k, x, list, target, from, end), merge_from(k, y, list, target, from, end)) {
            (Ok(after_x), Ok(after_y)) => {
                &&& pairwise(program, plan, retained, i, base_x, base_y, after_x, after_y)
                &&& after_x == (Block { shots: after_x.shots, parts: after_x.parts, ..x })
                &&& after_x.shots.len() == x.shots.len()
            },
            (Err(t), Err(u)) => t == u,
            _ => false,
        },
{
    assert(agrees(program, plan, retained, i, base_x, base_y, x.shots[0], y.shots[0]));
    lemma_merge_agrees(k, x, y, list, target, from, end, 0, 0);
    match (merge_from(k, x, list, target, from, end), merge_from(k, y, list, target, from, end)) {
        (Ok(after_x), Ok(after_y)) => {
            assert forall|s: int| 0 <= s < after_x.shots.len() implies agrees(
                program,
                plan,
                retained,
                i,
                base_x,
                base_y,
                #[trigger] after_x.shots[s],
                after_y.shots[s],
            ) by {
                assert(agrees(program, plan, retained, i, base_x, base_y, x.shots[s], y.shots[s]));
                lemma_merge_agrees(k, x, y, list, target, from, end, s, s);
                lemma_agrees_lanes(
                    program,
                    plan,
                    retained,
                    i,
                    base_x,
                    base_y,
                    x.shots[s],
                    y.shots[s],
                    after_x.shots[s],
                    after_y.shots[s],
                );
            }
        },
        _ => {},
    }
}

/// An instruction that draws keeps the blocks together, where neither holds
/// discarded shots.
#[verifier::rlimit(80)]
#[verifier::spinoff_prover]
pub proof fn lemma_drawing_pairwise<A, K: ActiveKernels<A>>(
    k: &K,
    program: &FactoredInstructionProgram,
    plan: PresampledExpressionPlan,
    retained: Seq<Vec<i32>>,
    i: int,
    base_x: spec_fn(int, int) -> bool,
    base_y: spec_fn(int, int) -> bool,
    x: Block<A>,
    y: Block<A>,
)
    requires
        residuals_within(plan, program),
        single_assignment(program),
        0 <= i < program.instructions@.len(),
        !is_pure(program.instructions@[i]),
        unclaimed(program, i, x),
        records_counted(x),
        pairwise(program, plan, retained, i, base_x, base_y, x, y),
        x.shots.len() > 0,
    ensures
        match (step(k, base_x, plan, program, i, x), step(k, base_y, plan, program, i, y)) {
            (Ok(after_x), Ok(after_y)) => pairwise(
                program,
                plan,
                retained,
                i + 1,
                base_x,
                base_y,
                after_x,
                after_y,
            ),
            (Err(t), Err(u)) => t == u,
            _ => false,
        },
{
    let ins = program.instructions@[i];
    let parts = program.active_component_plan->0;
    let kind = parts.instruction_steps@[i].kind;
    let payload = parts.instruction_steps@[i].payload as int;
    if x.split && kind == ActiveComponentStepKind::Measurement {
        match ins {
            FactoredInstruction::MeasurePrecomputedActivePauli(inst) => {
                let measurement = parts.measurements@[payload];
                let at = measurement.component as int;
                let from = measurement.merge_offset as int + 1;
                let end = measurement.merge_offset as int + measurement.merge_count as int;
                let list = parts.merge_components@;
                lemma_merge_pairwise(
                    k,
                    program,
                    plan,
                    retained,
                    i,
                    base_x,
                    base_y,
                    x,
                    y,
                    list,
                    at,
                    from,
                    end,
                );
                assert(may_assign(ins, inst.branch));
                if inst.record_condition is Some {
                    assert(may_assign(ins, inst.record_condition->0));
                }
                match (merge_from(k, x, list, at, from, end), merge_from(k, y, list, at, from, end)) {
                    (Ok(merged_x), Ok(merged_y)) => {
                        lemma_measure_pairwise(
                            k,
                            program,
                            plan,
                            retained,
                            i,
                            base_x,
                            base_y,
                            merged_x,
                            merged_y,
                            at,
                            measurement.kernel,
                            inst.branch,
                        );
                        match (
                            measure_branch(k, merged_x, at, measurement.kernel, inst.branch),
                            measure_branch(k, merged_y, at, measurement.kernel, inst.branch),
                        ) {
                            (Ok((after_x, bits)), Ok((after_y, _))) => {
                                let left_x = left_by(measurement.deactivate_after, after_x, at);
                                let left_y = left_by(measurement.deactivate_after, after_y, at);
                                assert(left_x.parts =~= left_y.parts);
                                assert forall|s: int| 0 <= s < left_x.shots.len() implies agrees(
                                    program,
                                    plan,
                                    retained,
                                    i,
                                    base_x,
                                    base_y,
                                    #[trigger] left_x.shots[s],
                                    left_y.shots[s],
                                ) by {
                                    assert(agrees(
                                        program,
                                        plan,
                                        retained,
                                        i,
                                        base_x,
                                        base_y,
                                        after_x.shots[s],
                                        after_y.shots[s],
                                    ));
                                    assert(left_x.shots[s].lanes =~= left_y.shots[s].lanes);
                                }
                                assert(same_values(left_x, left_y, inst.branch)) by {
                                    assert forall|s: int| 0 <= s < left_x.shots.len() implies (
                                    #[trigger] left_x.shots[s]).values[inst.branch]
                                        == left_y.shots[s].values[inst.branch] by {
                                        assert(after_x.shots[s].values[inst.branch]
                                            == after_y.shots[s].values[inst.branch]);
                                    }
                                }
                                lemma_branch_pairwise(
                                    program,
                                    plan,
                                    retained,
                                    i,
                                    base_x,
                                    base_y,
                                    left_x,
                                    left_y,
                                    bits,
                                    inst.branch,
                                    inst.outcome_plan,
                                    inst.record,
                                    inst.record_condition,
                                );
                            },
                            _ => {},
                        }
                    },
                    _ => {},
                }
            },
            _ => {},
        }
    } else if x.split && kind != ActiveComponentStepKind::Unaffected {
        lemma_next_pairwise(program, plan, retained, i, base_x, base_y, x, y);
    } else {
        lemma_drawing_whole(k, program, plan, retained, i, base_x, base_y, x, y);
    }
}

spec fn left_by<A>(deactivate: bool, after: Block<A>, at: int) -> Block<A> {
    if deactivate {
        crate::model::with_lanes(
            after,
            at,
            Part { active: false, ..after.parts[at] },
            Seq::new(after.shots.len(), |s: int| Seq::empty()),
        )
    } else {
        after
    }
}

#[verifier::rlimit(60)]
#[verifier::spinoff_prover]
proof fn lemma_drawing_whole<A, K: ActiveKernels<A>>(
    k: &K,
    program: &FactoredInstructionProgram,
    plan: PresampledExpressionPlan,
    retained: Seq<Vec<i32>>,
    i: int,
    base_x: spec_fn(int, int) -> bool,
    base_y: spec_fn(int, int) -> bool,
    x: Block<A>,
    y: Block<A>,
)
    requires
        residuals_within(plan, program),
        single_assignment(program),
        0 <= i < program.instructions@.len(),
        !is_pure(program.instructions@[i]),
        unclaimed(program, i, x),
        records_counted(x),
        pairwise(program, plan, retained, i, base_x, base_y, x, y),
        x.shots.len() > 0,
    ensures
        match (
            step_whole(k, base_x, plan, program.instructions@[i], i, x),
            step_whole(k, base_y, plan, program.instructions@[i], i, y),
        ) {
            (Ok(after_x), Ok(after_y)) => pairwise(
                program,
                plan,
                retained,
                i + 1,
                base_x,
                base_y,
                after_x,
                after_y,
            ),
            (Err(t), Err(u)) => t == u,
            _ => false,
        },
{
    let ins = program.instructions@[i];
    lemma_next_pairwise(program, plan, retained, i, base_x, base_y, x, y);
    let signs_x = signs(base_x, plan, i, x);
    let signs_y = signs(base_y, plan, i, y);
    assert(signs_x =~= signs_y) by {
        assert forall|s: int| 0 <= s < x.shots.len() implies signs_x[s] == signs_y[s] by {
            assert(agrees(program, plan, retained, i, base_x, base_y, x.shots[s], y.shots[s]));
            lemma_agrees_sign(program, plan, retained, i, base_x, base_y, x.shots[s], y.shots[s]);
        }
    }
    assert(sign_refusal(plan, i, x) == sign_refusal(plan, i, y));
    match ins {
        FactoredInstruction::MeasurePrecomputedActivePauli(inst) => {
            if inst.exp_val is None {
                assert(may_assign(ins, inst.branch));
                if inst.record_condition is Some {
                    assert(may_assign(ins, inst.record_condition->0));
                }
                lemma_measure_pairwise(
                    k,
                    program,
                    plan,
                    retained,
                    i,
                    base_x,
                    base_y,
                    x,
                    y,
                    0,
                    inst.kernel,
                    inst.branch,
                );
                match (
                    measure_branch(k, x, 0, inst.kernel, inst.branch),
                    measure_branch(k, y, 0, inst.kernel, inst.branch),
                ) {
                    (Ok((after_x, bits)), Ok((after_y, _))) => {
                        lemma_branch_pairwise(
                            program,
                            plan,
                            retained,
                            i,
                            base_x,
                            base_y,
                            after_x,
                            after_y,
                            bits,
                            inst.branch,
                            inst.outcome_plan,
                            inst.record,
                            inst.record_condition,
                        );
                    },
                    _ => {},
                }
            } else {
                lemma_exps_pairwise(k, program, plan, retained, i, base_x, base_y, x, y);
            }
        },
        FactoredInstruction::IntroduceDormantMeasurementBranch(inst) => {
            if inst.exp_val is None {
                assert(may_assign(ins, inst.branch));
                if inst.record_condition is Some {
                    assert(may_assign(ins, inst.record_condition->0));
                }
                let (next, drawn) = coins(k, x);
                let (next_y, drawn_y) = coins(k, y);
                assert(drawn =~= drawn_y);
                let mid_x = Block { rng: next, ..x };
                let mid_y = Block { rng: next, ..y };
                assert(pairwise(program, plan, retained, i, base_x, base_y, mid_x, mid_y)) by {
                    assert forall|s: int| 0 <= s < mid_x.shots.len() implies agrees(
                        program,
                        plan,
                        retained,
                        i,
                        base_x,
                        base_y,
                        #[trigger] mid_x.shots[s],
                        mid_y.shots[s],
                    ) by {
                        assert(agrees(
                            program,
                            plan,
                            retained,
                            i,
                            base_x,
                            base_y,
                            x.shots[s],
                            y.shots[s],
                        ));
                    }
                }
                lemma_assign_pairwise(
                    program,
                    plan,
                    retained,
                    i,
                    base_x,
                    base_y,
                    mid_x,
                    mid_y,
                    inst.branch,
                    drawn,
                );
                match (assign(mid_x, inst.branch, drawn), assign(mid_y, inst.branch, drawn)) {
                    (Ok(after_x), Ok(after_y)) => {
                        lemma_branch_pairwise(
                            program,
                            plan,
                            retained,
                            i,
                            base_x,
                            base_y,
                            after_x,
                            after_y,
                            drawn,
                            inst.branch,
                            inst.outcome_plan,
                            inst.record,
                            inst.record_condition,
                        );
                    },
                    _ => {},
                }
            } else {
                lemma_exps_pairwise(k, program, plan, retained, i, base_x, base_y, x, y);
            }
        },
        _ => {},
    }
}

/// The same for the forms that write an expectation slot.
proof fn lemma_exps_pairwise<A, K: ActiveKernels<A>>(
    k: &K,
    program: &FactoredInstructionProgram,
    plan: PresampledExpressionPlan,
    retained: Seq<Vec<i32>>,
    i: int,
    base_x: spec_fn(int, int) -> bool,
    base_y: spec_fn(int, int) -> bool,
    x: Block<A>,
    y: Block<A>,
)
    requires
        residuals_within(plan, program),
        0 <= i < program.instructions@.len(),
        pairwise(program, plan, retained, i, base_x, base_y, x, y),
        match program.instructions@[i] {
            FactoredInstruction::MeasurePrecomputedActivePauli(inst) => inst.exp_val is Some,
            FactoredInstruction::IntroduceDormantMeasurementBranch(inst) => inst.exp_val is Some,
            _ => false,
        },
    ensures
        match (
            step_whole(k, base_x, plan, program.instructions@[i], i, x),
            step_whole(k, base_y, plan, program.instructions@[i], i, y),
        ) {
            (Ok(after_x), Ok(after_y)) => pairwise(
                program,
                plan,
                retained,
                i + 1,
                base_x,
                base_y,
                after_x,
                after_y,
            ),
            (Err(t), Err(u)) => t == u,
            _ => false,
        },
{
    let ins = program.instructions@[i];
    assert(sign_refusal(plan, i, x) == sign_refusal(plan, i, y));
    match (step_whole(k, base_x, plan, ins, i, x), step_whole(k, base_y, plan, ins, i, y)) {
        (Ok(after_x), Ok(after_y)) => {
            assert forall|s: int| 0 <= s < after_x.shots.len() implies agrees(
                program,
                plan,
                retained,
                i + 1,
                base_x,
                base_y,
                #[trigger] after_x.shots[s],
                after_y.shots[s],
            ) by {
                let a = x.shots[s];
                let b = y.shots[s];
                assert(agrees(program, plan, retained, i, base_x, base_y, a, b));
                lemma_agrees_sign(program, plan, retained, i, base_x, base_y, a, b);
                lemma_agrees_next(program, plan, retained, i, i + 1, base_x, base_y, a, b);
                assert(signs(base_x, plan, i, x)[s] == signs(base_y, plan, i, y)[s]);
            }
        },
        _ => {},
    }
}

// ---------------------------------------------------------------------------
// Fused runs
// ---------------------------------------------------------------------------
/// The run of the shots that are left stops at instruction `j` with a text. A
/// rotation that fits neither the symbols nor the width may report either.
pub open spec fn select_stops<A, K: ActiveKernels<A>>(
    k: &K,
    base: spec_fn(int, int) -> bool,
    plan: PresampledExpressionPlan,
    program: &FactoredInstructionProgram,
    expected: Seq<u8>,
    i: int,
    j: int,
    b: Block<A>,
    text: Seq<char>,
) -> bool {
    &&& i <= j < program.instructions@.len()
    &&& match select_run(k, base, plan, program, expected, i, j, b) {
        Ok(reached) => {
            let stepped = select_step(k, base, plan, program, expected, j, reached);
            &&& reached.shots.len() > 0
            &&& stepped is Err
            &&& (stepped->Err_0 == text || (mismatched(program.instructions@[j], reached) && text
                == "rotation kernel dimension does not match batch active state"@))
        },
        Err(_) => false,
    }
}

/// The run of the shots that are left stops somewhere with a text.
pub open spec fn select_halts<A, K: ActiveKernels<A>>(
    k: &K,
    base: spec_fn(int, int) -> bool,
    plan: PresampledExpressionPlan,
    program: &FactoredInstructionProgram,
    expected: Seq<u8>,
    i: int,
    b: Block<A>,
    text: Seq<char>,
) -> bool {
    exists|j: int| #[trigger] select_stops(k, base, plan, program, expected, i, j, b, text)
}

/// Where a run stops does not depend on where one starts to count.
pub proof fn lemma_select_stops_later<A, K: ActiveKernels<A>>(
    k: &K,
    base: spec_fn(int, int) -> bool,
    plan: PresampledExpressionPlan,
    program: &FactoredInstructionProgram,
    expected: Seq<u8>,
    i: int,
    j: int,
    start: Block<A>,
    b: Block<A>,
    text: Seq<char>,
)
    requires
        0 <= i,
        select_run(k, base, plan, program, expected, 0, i, start) == Ok::<Block<A>, Seq<char>>(b),
        select_stops(k, base, plan, program, expected, i, j, b, text),
    ensures
        select_stops(k, base, plan, program, expected, 0, j, start, text),
{
    lemma_select_split(k, base, plan, program, expected, 0, i, j, start);
}

/// A run of rotations and promotions keeps the blocks together.
pub proof fn lemma_run_follows<A, K: ActiveKernels<A>>(
    k: &K,
    program: &FactoredInstructionProgram,
    plan: PresampledExpressionPlan,
    retained: Seq<Vec<i32>>,
    expected: Seq<u8>,
    i: int,
    j: int,
    base_x: spec_fn(int, int) -> bool,
    base_y: spec_fn(int, int) -> bool,
    x: Block<A>,
    y: Block<A>,
    live: Seq<int>,
)
    requires
        residuals_within(plan, program),
        single_assignment(program),
        0 <= i <= j <= program.instructions@.len(),
        turning(program, i, j),
        !x.split,
        unclaimed(program, i, x),
        records_counted(x),
        follows(program, plan, retained, i, base_x, base_y, x, y, live),
        live.len() > 0,
    ensures
        match (
            run(k, base_x, plan, program, i, j, x),
            select_run(k, base_y, plan, program, expected, i, j, y),
        ) {
            (Ok(after_x), Ok(after_y)) => {
                &&& follows(program, plan, retained, j, base_x, base_y, after_x, after_y, live)
                &&& after_x.shots.len() == x.shots.len()
                &&& !after_x.split
                &&& unclaimed(program, j, after_x)
                &&& records_counted(after_x)
            },
            (Err(t), Err(u)) => t == u,
            _ => false,
        },
    decreases j - i,
{
    if i < j {
        let ins = program.instructions@[i];
        assert(is_rotation(ins) || is_promotion(ins));
        lemma_pure_follows(k, program, plan, retained, i, base_x, base_y, x, y, live);
        lemma_known_step(k, base_x, plan, program, i, x);
        match (step(k, base_x, plan, program, i, x), step(k, base_y, plan, program, i, y)) {
            (Ok(next_x), Ok(next_y)) => {
                assert(records_counted(next_x)) by {
                    assert forall|s: int| 0 <= s < next_x.shots.len() implies (
                    #[trigger] next_x.shots[s]).records.len() == next_x.nrecords by {
                        assert(x.shots[s].records.len() == x.nrecords);
                    }
                }
                assert(turning(program, i + 1, j)) by {
                    assert forall|m: int| i + 1 <= m < j implies is_rotation(
                        #[trigger] program.instructions@[m],
                    ) || is_promotion(program.instructions@[m]) by {}
                }
                lemma_run_follows(
                    k,
                    program,
                    plan,
                    retained,
                    expected,
                    i + 1,
                    j,
                    base_x,
                    base_y,
                    next_x,
                    next_y,
                    live,
                );
            },
            _ => {},
        }
    }
}

/// Where a run of rotations and promotions stops, the run of the shots that are
/// left stops too.
pub proof fn lemma_stops_follows<A, K: ActiveKernels<A>>(
    k: &K,
    program: &FactoredInstructionProgram,
    plan: PresampledExpressionPlan,
    retained: Seq<Vec<i32>>,
    expected: Seq<u8>,
    i: int,
    j: int,
    base_x: spec_fn(int, int) -> bool,
    base_y: spec_fn(int, int) -> bool,
    x: Block<A>,
    y: Block<A>,
    live: Seq<int>,
    text: Seq<char>,
)
    requires
        residuals_within(plan, program),
        single_assignment(program),
        0 <= i,
        turning(program, i, j + 1),
        !x.split,
        unclaimed(program, i, x),
        records_counted(x),
        follows(program, plan, retained, i, base_x, base_y, x, y, live),
        live.len() > 0,
        stops_at(k, base_x, plan, program, i, j, x, text),
    ensures
        select_stops(k, base_y, plan, program, expected, i, j, y, text),
{
    assert(turning(program, i, j)) by {
        assert forall|m: int| i <= m < j implies is_rotation(#[trigger] program.instructions@[m])
            || is_promotion(program.instructions@[m]) by {}
    }
    lemma_run_follows(
        k,
        program,
        plan,
        retained,
        expected,
        i,
        j,
        base_x,
        base_y,
        x,
        y,
        live,
    );
    let reached_x = run(k, base_x, plan, program, i, j, x)->Ok_0;
    let reached_y = select_run(k, base_y, plan, program, expected, i, j, y)->Ok_0;
    assert(is_rotation(program.instructions@[j]) || is_promotion(program.instructions@[j]));
    lemma_pure_follows(k, program, plan, retained, j, base_x, base_y, reached_x, reached_y, live);
}

// ---------------------------------------------------------------------------
// Discarding
// ---------------------------------------------------------------------------
/// The first `n` places that are not dead, in order.
pub open spec fn live_list(dead: Seq<u64>, n: int) -> Seq<int>
    decreases n,
{
    if n <= 0 {
        Seq::empty()
    } else if !row_bit(dead, n - 1) {
        live_list(dead, n - 1).push(n - 1)
    } else {
        live_list(dead, n - 1)
    }
}

/// The listed places are live and in range.
pub proof fn lemma_live_list(dead: Seq<u64>, n: int)
    requires
        0 <= n,
    ensures
        live_list(dead, n).len() <= n,
        forall|j: int|
            0 <= j < live_list(dead, n).len() ==> 0 <= #[trigger] live_list(dead, n)[j] < n && !row_bit(
                dead,
                live_list(dead, n)[j],
            ),
    decreases n,
{
    if n > 0 {
        lemma_live_list(dead, n - 1);
    }
}

/// Where none is dead, every place is listed.
pub proof fn lemma_live_all(dead: Seq<u64>, n: int)
    requires
        0 <= n,
        forall|s: int| 0 <= s < n ==> !#[trigger] row_bit(dead, s),
    ensures
        live_list(dead, n) == Seq::new(n as nat, |j: int| j),
    decreases n,
{
    if n > 0 {
        lemma_live_all(dead, n - 1);
        assert(!row_bit(dead, n - 1));
    }
    assert(live_list(dead, n) =~= Seq::new(n as nat, |j: int| j));
}

/// Where the list is full, none is dead.
pub proof fn lemma_live_full(dead: Seq<u64>, n: int)
    requires
        0 <= n,
        live_list(dead, n).len() == n,
    ensures
        forall|s: int| 0 <= s < n ==> !#[trigger] row_bit(dead, s),
    decreases n,
{
    if n > 0 {
        lemma_live_list(dead, n - 1);
        if row_bit(dead, n - 1) {
            assert(false);
        }
        lemma_live_full(dead, n - 1);
    }
}

/// Keeping what is not dead keeps the live places.
pub proof fn lemma_live_kept(dead: Seq<u64>, keep: Seq<u64>, n: int)
    requires
        forall|s: int| 0 <= s < n ==> #[trigger] row_bit(keep, s) == !row_bit(dead, s),
    ensures
        survivors(keep, n) == live_list(dead, n),
    decreases n,
{
    if n > 0 {
        lemma_live_kept(dead, keep, n - 1);
        assert(row_bit(keep, n - 1) == !row_bit(dead, n - 1));
    }
}

/// Dropping the shots with an unexpected outcome on both sides keeps the shots
/// together.
proof fn lemma_accepted<A>(
    program: &FactoredInstructionProgram,
    plan: PresampledExpressionPlan,
    retained: Seq<Vec<i32>>,
    i: int,
    base_x: spec_fn(int, int) -> bool,
    base_y: spec_fn(int, int) -> bool,
    shots_x: Seq<Shot<A>>,
    shots_y: Seq<Shot<A>>,
    outcomes_x: Seq<bool>,
    outcomes_y: Seq<bool>,
    expected: bool,
    dead: Seq<u64>,
    after: Seq<u64>,
    n: int,
)
    requires
        0 <= n <= shots_x.len(),
        live_list(dead, n).len() <= shots_y.len(),
        forall|j: int|
            0 <= j < live_list(dead, n).len() ==> agrees(
                program,
                plan,
                retained,
                i,
                base_x,
                base_y,
                shots_x[#[trigger] live_list(dead, n)[j]],
                shots_y[j],
            ) && outcomes_x[live_list(dead, n)[j]] == outcomes_y[j],
        forall|s: int|
            0 <= s < n ==> #[trigger] row_bit(after, s) == (row_bit(dead, s) || outcomes_x[s]
                != expected),
    ensures
        ({
            let kept = accepted(shots_y, outcomes_y, expected, live_list(dead, n).len() as int);
            &&& kept.len() == live_list(after, n).len()
            &&& forall|m: int|
                0 <= m < kept.len() ==> agrees(
                    program,
                    plan,
                    retained,
                    i,
                    base_x,
                    base_y,
                    shots_x[#[trigger] live_list(after, n)[m]],
                    kept[m],
                )
        }),
    decreases n,
{
    if n > 0 {
        let list = live_list(dead, n);
        let prior = live_list(dead, n - 1);
        assert forall|j: int| 0 <= j < prior.len() implies agrees(
            program,
            plan,
            retained,
            i,
            base_x,
            base_y,
            shots_x[#[trigger] prior[j]],
            shots_y[j],
        ) && outcomes_x[prior[j]] == outcomes_y[j] by {
            assert(list[j] == prior[j]);
        }
        lemma_accepted(
            program,
            plan,
            retained,
            i,
            base_x,
            base_y,
            shots_x,
            shots_y,
            outcomes_x,
            outcomes_y,
            expected,
            dead,
            after,
            n - 1,
        );
        assert(row_bit(after, n - 1) == (row_bit(dead, n - 1) || outcomes_x[n - 1] != expected));
        if !row_bit(dead, n - 1) {
            let last = prior.len() as int;
            assert(list[last] == n - 1);
            let kept = accepted(shots_y, outcomes_y, expected, last + 1);
            let older = accepted(shots_y, outcomes_y, expected, last);
            let now = live_list(after, n);
            let then_list = live_list(after, n - 1);
            assert forall|m: int| 0 <= m < kept.len() implies agrees(
                program,
                plan,
                retained,
                i,
                base_x,
                base_y,
                shots_x[#[trigger] now[m]],
                kept[m],
            ) by {
                if m < older.len() {
                    assert(now[m] == then_list[m]);
                    assert(kept[m] == older[m]);
                }
            }
        }
    }
}

/// A detector that discards keeps the blocks together.
#[verifier::rlimit(40)]
pub proof fn lemma_discard_follows<A>(
    program: &FactoredInstructionProgram,
    plan: PresampledExpressionPlan,
    retained: Seq<Vec<i32>>,
    i: int,
    base_x: spec_fn(int, int) -> bool,
    base_y: spec_fn(int, int) -> bool,
    x: Block<A>,
    y: Block<A>,
    after_x: Block<A>,
    detector: RecordDetector,
    expected: bool,
    dead: Seq<u64>,
    after: Seq<u64>,
)
    requires
        residuals_within(plan, program),
        0 <= i < program.instructions@.len(),
        program.instructions@[i] == FactoredInstruction::RecordDetector(detector),
        records_counted(x),
        follows(
            program,
            plan,
            retained,
            i,
            base_x,
            base_y,
            x,
            y,
            live_list(dead, x.shots.len() as int),
        ),
        detector_refusal(plan, detector, i, x) is None,
        if x.stores_detectors {
            write_detector(x, detector.detector, detector_outcomes(base_x, plan, detector, i, x))
                == Ok::<Block<A>, Seq<char>>(after_x)
        } else {
            after_x == x
        },
        forall|s: int|
            0 <= s < x.shots.len() ==> #[trigger] row_bit(after, s) == (row_bit(dead, s)
                || detector_outcomes(base_x, plan, detector, i, x)[s] != expected),
    ensures
        match discard_step(base_y, plan, detector, expected, i, y) {
            Ok(after_y) => follows(
                program,
                plan,
                retained,
                i + 1,
                base_x,
                base_y,
                after_x,
                after_y,
                live_list(after, x.shots.len() as int),
            ),
            Err(_) => false,
        },
{
    let n = x.shots.len() as int;
    let live = live_list(dead, n);
    let outcomes_x = detector_outcomes(base_x, plan, detector, i, x);
    let outcomes_y = detector_outcomes(base_y, plan, detector, i, y);
    assert(detector_refusal(plan, detector, i, x) == detector_refusal(plan, detector, i, y));
    let written_y = if y.stores_detectors {
        with_detectors(y, detector.detector as int, outcomes_y)
    } else {
        y
    };
    assert forall|j: int| 0 <= j < live.len() implies agrees(
        program,
        plan,
        retained,
        i + 1,
        base_x,
        base_y,
        after_x.shots[#[trigger] live[j]],
        written_y.shots[j],
    ) && outcomes_x[live[j]] == outcomes_y[j] by {
        let a = x.shots[live[j]];
        let b = y.shots[j];
        assert(a.records.len() == x.nrecords);
        lemma_agrees_detector(program, plan, retained, i, base_x, base_y, detector, a, b);
        lemma_agrees_next(program, plan, retained, i, i + 1, base_x, base_y, a, b);
        assert(after_x.shots[live[j]].detectors =~= written_y.shots[j].detectors);
    }
    lemma_accepted(
        program,
        plan,
        retained,
        i + 1,
        base_x,
        base_y,
        after_x.shots,
        written_y.shots,
        outcomes_x,
        outcomes_y,
        expected,
        dead,
        after,
        n,
    );
    lemma_live_list(after, n);
}

} // verus!
