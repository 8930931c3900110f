//! What postselection means: a shot whose selected detector comes out unexpectedly
//! is gone at once, and the instructions that follow see the others alone.
//!
//! The executor removes discarded shots late, and moves only the columns that are
//! still read. The lemmas below show that neither can be seen: shots that agree on
//! what is still read agree after every instruction.
use vstd::prelude::*;
use crate::kernels::ActiveKernels;
use crate::model::{
    detector_at, detector_outcomes, detector_refusal, merge_from, merge_one, records_parity,
    shot_values, sign_at, sign_refusal, signs, step, step_whole, write_detector, write_measurement,
    Block, Outcome, Shot,
};
use crate::presampled_expression::PresampledExpressionPlan;
use crate::program::{
    ActiveComponentStepKind, FactoredInstruction, FactoredInstructionProgram, RecordDetector,
};
use crate::survive::{expression_used_from, read_between, reads, record_used_from, used_from, uses};
use crate::symbolic::lemma_xor_of_ext;

verus! {

// ---------------------------------------------------------------------------
// The meaning
// ---------------------------------------------------------------------------
/// The outcome that a detector has without noise.
pub open spec fn expected_at(expected: Seq<u8>, id: i32) -> bool {
    0 < id <= expected.len() && expected[id - 1] != 0
}

/// Whether instruction `i` discards shots. On a split active state a detector with a
/// component step of its own does not.
pub open spec fn discards_at(program: &FactoredInstructionProgram, split: bool, i: int) -> bool {
    &&& crate::program::discards(program.instructions@[i])
    &&& !split || program.active_component_plan->0.instruction_steps@[i].kind
        == ActiveComponentStepKind::Unaffected
}

/// The first `n` shots that have the expected outcome.
pub open spec fn accepted<A>(shots: Seq<Shot<A>>, outcomes: Seq<bool>, expected: bool, n: int) -> Seq<
    Shot<A>,
>
    decreases n,
{
    if n <= 0 {
        Seq::empty()
    } else if outcomes[n - 1] == expected {
        accepted(shots, outcomes, expected, n - 1).push(shots[n - 1])
    } else {
        accepted(shots, outcomes, expected, n - 1)
    }
}

/// A detector that discards.
pub open spec fn discard_step<A>(
    base: spec_fn(int, int) -> bool,
    plan: PresampledExpressionPlan,
    detector: RecordDetector,
    expected: bool,
    i: int,
    b: Block<A>,
) -> Outcome<A> {
    match detector_refusal(plan, detector, i, b) {
        Some(text) => Err(text),
        None => {
            let outcomes = detector_outcomes(base, plan, detector, i, b);
            let written = if b.stores_detectors {
                write_detector(b, detector.detector, outcomes)
            } else {
                Ok(b)
            };
            match written {
                Err(text) => Err(text),
                Ok(after) => Ok(
                    Block {
                        shots: accepted(after.shots, outcomes, expected, after.shots.len() as int),
                        ..after
                    },
                ),
            }
        },
    }
}

/// What instruction `i` makes of the shots that are left.
pub open spec fn select_step<A, K: ActiveKernels<A>>(
    k: &K,
    base: spec_fn(int, int) -> bool,
    plan: PresampledExpressionPlan,
    program: &FactoredInstructionProgram,
    expected: Seq<u8>,
    i: int,
    b: Block<A>,
) -> Outcome<A> {
    if discards_at(program, b.split, i) {
        let detector = program.instructions@[i]->RecordDetector_0;
        discard_step(base, plan, detector, expected_at(expected, detector.detector), i, b)
    } else {
        step(k, base, plan, program, i, b)
    }
}

/// What the instructions from `from` to `end` make of the shots that are left.
/// Nothing more happens once all shots are gone.
pub open spec fn select_run<A, K: ActiveKernels<A>>(
    k: &K,
    base: spec_fn(int, int) -> bool,
    plan: PresampledExpressionPlan,
    program: &FactoredInstructionProgram,
    expected: Seq<u8>,
    from: int,
    end: int,
    b: Block<A>,
) -> Outcome<A>
    decreases end - from,
{
    if from >= end || b.shots.len() == 0 {
        Ok(b)
    } else {
        match select_step(k, base, plan, program, expected, from, b) {
            Err(text) => Err(text),
            Ok(next) => select_run(k, base, plan, program, expected, from + 1, end, next),
        }
    }
}

/// Running on past the middle.
pub proof fn lemma_select_split<A, K: ActiveKernels<A>>(
    k: &K,
    base: spec_fn(int, int) -> bool,
    plan: PresampledExpressionPlan,
    program: &FactoredInstructionProgram,
    expected: Seq<u8>,
    from: int,
    mid: int,
    end: int,
    b: Block<A>,
)
    requires
        from <= mid <= end,
    ensures
        select_run(k, base, plan, program, expected, from, end, b) == match select_run(
            k,
            base,
            plan,
            program,
            expected,
            from,
            mid,
            b,
        ) {
            Err(text) => Err(text),
            Ok(next) => select_run(k, base, plan, program, expected, mid, end, next),
        },
    decreases mid - from,
{
    if b.shots.len() == 0 {
    } else if from < mid {
        match select_step(k, base, plan, program, expected, from, b) {
            Err(_) => {},
            Ok(next) => {
                lemma_select_split(k, base, plan, program, expected, from + 1, mid, end, next);
            },
        }
    }
}

// ---------------------------------------------------------------------------
// Agreement
// ---------------------------------------------------------------------------
/// The residual of every instruction reads conditions of its own expression.
pub open spec fn residuals_within(
    plan: PresampledExpressionPlan,
    program: &FactoredInstructionProgram,
) -> bool {
    &&& plan.instruction_expressions@.len() == program.instructions@.len()
    &&& forall|i: int, q: int|
        0 <= i < program.instructions@.len() && 0 <= q
            < plan.instruction_expressions@[i].residual_plan.conditions@.len() ==> uses(
            program.instructions@[i],
            #[trigger] plan.instruction_expressions@[i].residual_plan.conditions@[q],
        )
}

/// The two shots agree on everything that instructions from `i` on can read.
pub open spec fn agrees<A>(
    program: &FactoredInstructionProgram,
    plan: PresampledExpressionPlan,
    retained: Seq<Vec<i32>>,
    i: int,
    base_a: spec_fn(int, int) -> bool,
    base_b: spec_fn(int, int) -> bool,
    a: Shot<A>,
    b: Shot<A>,
) -> bool {
    &&& a.lanes == b.lanes
    &&& a.exps == b.exps
    &&& a.detectors == b.detectors
    &&& a.values.dom() == b.values.dom()
    &&& forall|c: i32|
        a.values.contains_key(c) && #[trigger] used_from(program, c, i) ==> a.values[c] == b.values[c]
    &&& a.records.len() == b.records.len()
    &&& forall|q: int|
        0 < q <= a.records.len() && #[trigger] record_used_from(program, retained, q as i32, i)
            ==> a.records[q - 1] == b.records[q - 1]
    &&& forall|e: int| #[trigger]
        expression_used_from(plan, e, i) ==> base_a(e, a.sample) == base_b(e, b.sample)
}

/// What is not read from `i` on is not read from `i + 1` on.
pub proof fn lemma_agrees_next<A>(
    program: &FactoredInstructionProgram,
    plan: PresampledExpressionPlan,
    retained: Seq<Vec<i32>>,
    i: int,
    j: int,
    base_a: spec_fn(int, int) -> bool,
    base_b: spec_fn(int, int) -> bool,
    a: Shot<A>,
    b: Shot<A>,
)
    requires
        agrees(program, plan, retained, i, base_a, base_b, a, b),
        i <= j,
    ensures
        agrees(program, plan, retained, j, base_a, base_b, a, b),
{
    assert forall|c: i32| a.values.contains_key(c) && #[trigger] used_from(program, c, j) implies
        a.values[c] == b.values[c] by {
        let m = choose|m: int|
            j <= m < program.instructions@.len() && uses(#[trigger] program.instructions@[m], c);
        assert(uses(program.instructions@[m], c));
        assert(used_from(program, c, i));
    }
    assert forall|q: int|
        0 < q <= a.records.len() && #[trigger] record_used_from(program, retained, q as i32, j) implies
        a.records[q - 1] == b.records[q - 1] by {
        if read_between(program, q as i32, j, program.instructions@.len() as int) {
            let m = choose|m: int|
                j <= m < program.instructions@.len() && reads(
                    #[trigger] program.instructions@[m],
                    q as i32,
                );
            assert(reads(program.instructions@[m], q as i32));
        }
        assert(record_used_from(program, retained, q as i32, i));
    }
    assert forall|e: int| #[trigger] expression_used_from(plan, e, j) implies base_a(e, a.sample)
        == base_b(e, b.sample) by {
        let m = choose|m: int|
            j <= m < plan.instruction_expressions@.len() && (
            #[trigger] plan.instruction_expressions@[m]).block_expression_index == e;
        assert(plan.instruction_expressions@[m].block_expression_index == e);
        assert(expression_used_from(plan, e, i));
    }
}

/// Shots that agree have the same sign.
pub proof fn lemma_agrees_sign<A>(
    program: &FactoredInstructionProgram,
    plan: PresampledExpressionPlan,
    retained: Seq<Vec<i32>>,
    i: int,
    base_a: spec_fn(int, int) -> bool,
    base_b: spec_fn(int, int) -> bool,
    a: Shot<A>,
    b: Shot<A>,
)
    requires
        residuals_within(plan, program),
        0 <= i < program.instructions@.len(),
        agrees(program, plan, retained, i, base_a, base_b, a, b),
    ensures
        sign_at(base_a, plan, i, a) == sign_at(base_b, plan, i, b),
{
    let expression = plan.instruction_expressions@[i];
    let e = expression.block_expression_index as int;
    assert(expression_used_from(plan, e, i)) by {
        assert(plan.instruction_expressions@[i].block_expression_index == e);
    }
    let conditions = expression.residual_plan.conditions@;
    assert forall|q: int| 0 <= q < conditions.len() implies shot_values(a)(#[trigger] conditions[q])
        == shot_values(b)(conditions[q]) by {
        let c = conditions[q];
        assert(uses(
            program.instructions@[i],
            plan.instruction_expressions@[i].residual_plan.conditions@[q],
        ));
        assert(used_from(program, c, i)) by {
            assert(uses(program.instructions@[i], c));
        }
        assert(a.values.dom().contains(c) == b.values.dom().contains(c));
    }
    lemma_xor_of_ext(conditions, shot_values(a), shot_values(b));
}

/// Shots that agree have the same detector outcome.
pub proof fn lemma_agrees_detector<A>(
    program: &FactoredInstructionProgram,
    plan: PresampledExpressionPlan,
    retained: Seq<Vec<i32>>,
    i: int,
    base_a: spec_fn(int, int) -> bool,
    base_b: spec_fn(int, int) -> bool,
    detector: RecordDetector,
    a: Shot<A>,
    b: Shot<A>,
)
    requires
        residuals_within(plan, program),
        0 <= i < program.instructions@.len(),
        program.instructions@[i] == FactoredInstruction::RecordDetector(detector),
        agrees(program, plan, retained, i, base_a, base_b, a, b),
        detector.records@.len() > 0 ==> crate::model::records_exist(
            detector.records@,
            a.records.len() as int,
        ),
    ensures
        detector_at(base_a, plan, detector, i, a) == detector_at(base_b, plan, detector, i, b),
{
    if detector.records@.len() > 0 {
        lemma_agrees_parity(
            program,
            plan,
            retained,
            i,
            base_a,
            base_b,
            detector,
            a,
            b,
            detector.records@.len() as int,
        );
    } else if detector.outcome.conditions@.len() > 0 {
        lemma_agrees_sign(program, plan, retained, i, base_a, base_b, a, b);
    }
}

proof fn lemma_agrees_parity<A>(
    program: &FactoredInstructionProgram,
    plan: PresampledExpressionPlan,
    retained: Seq<Vec<i32>>,
    i: int,
    base_a: spec_fn(int, int) -> bool,
    base_b: spec_fn(int, int) -> bool,
    detector: RecordDetector,
    a: Shot<A>,
    b: Shot<A>,
    n: int,
)
    requires
        0 <= n <= detector.records@.len(),
        0 <= i < program.instructions@.len(),
        program.instructions@[i] == FactoredInstruction::RecordDetector(detector),
        agrees(program, plan, retained, i, base_a, base_b, a, b),
        crate::model::records_exist(detector.records@, a.records.len() as int),
    ensures
        records_parity(detector.records@, a, n) == records_parity(detector.records@, b, n),
    decreases n,
{
    if n > 0 {
        lemma_agrees_parity(program, plan, retained, i, base_a, base_b, detector, a, b, n - 1);
        let r = detector.records@[n - 1];
        assert(0 < detector.records@[n - 1] <= a.records.len());
        assert(detector.records@.contains(r));
        assert(record_used_from(program, retained, r, i)) by {
            assert(reads(program.instructions@[i], r));
        }
        let q = r as int;
        assert(record_used_from(program, retained, q as i32, i));
    }
}

// ---------------------------------------------------------------------------
// Writes keep agreement
// ---------------------------------------------------------------------------
pub proof fn lemma_agrees_value<A>(
    program: &FactoredInstructionProgram,
    plan: PresampledExpressionPlan,
    retained: Seq<Vec<i32>>,
    i: int,
    base_a: spec_fn(int, int) -> bool,
    base_b: spec_fn(int, int) -> bool,
    a: Shot<A>,
    b: Shot<A>,
    c: i32,
    bit: bool,
)
    requires
        agrees(program, plan, retained, i, base_a, base_b, a, b),
    ensures
        agrees(
            program,
            plan,
            retained,
            i,
            base_a,
            base_b,
            a.with_value(c, bit),
            b.with_value(c, bit),
        ),
{
    let x = a.with_value(c, bit);
    let y = b.with_value(c, bit);
    assert(x.values.dom() =~= y.values.dom());
    assert forall|d: i32| x.values.contains_key(d) && #[trigger] used_from(program, d, i) implies
        x.values[d] == y.values[d] by {
        if d != c {
            assert(a.values.contains_key(d));
        }
    }
}

proof fn lemma_agrees_record<A>(
    program: &FactoredInstructionProgram,
    plan: PresampledExpressionPlan,
    retained: Seq<Vec<i32>>,
    i: int,
    base_a: spec_fn(int, int) -> bool,
    base_b: spec_fn(int, int) -> bool,
    a: Shot<A>,
    b: Shot<A>,
    id: int,
    count: int,
    bit: bool,
)
    requires
        agrees(program, plan, retained, i, base_a, base_b, a, b),
        0 <= count,
    ensures
        agrees(
            program,
            plan,
            retained,
            i,
            base_a,
            base_b,
            a.with_record(id, count, bit),
            b.with_record(id, count, bit),
        ),
{
    let x = a.with_record(id, count, bit);
    let y = b.with_record(id, count, bit);
    assert forall|q: int|
        0 < q <= x.records.len() && #[trigger] record_used_from(program, retained, q as i32, i) implies
        x.records[q - 1] == y.records[q - 1] by {
        if q != id && q - 1 < a.records.len() {
            assert(record_used_from(program, retained, q as i32, i));
        }
    }
}

/// Writing a measurement keeps agreement, pair by pair.
pub proof fn lemma_write_agrees<A>(
    program: &FactoredInstructionProgram,
    plan: PresampledExpressionPlan,
    retained: Seq<Vec<i32>>,
    i: int,
    base_a: spec_fn(int, int) -> bool,
    base_b: spec_fn(int, int) -> bool,
    x: Block<A>,
    y: Block<A>,
    record: Option<i32>,
    bits_x: Seq<bool>,
    bits_y: Seq<bool>,
    condition: Option<i32>,
    s: int,
    j: int,
)
    requires
        x == (Block { shots: x.shots, ..y }),
        condition is Some ==> !x.known.contains(condition->0),
        0 <= s < x.shots.len(),
        0 <= j < y.shots.len(),
        bits_x[s] == bits_y[j],
        agrees(program, plan, retained, i, base_a, base_b, x.shots[s], y.shots[j]),
        0 <= x.nrecords,
    ensures
        match (write_measurement(x, record, bits_x, condition), write_measurement(y, record, bits_y, condition)) {
            (Ok(after_x), Ok(after_y)) => {
                &&& after_x == (Block { shots: after_x.shots, ..after_y })
                &&& after_x.shots.len() == x.shots.len()
                &&& after_y.shots.len() == y.shots.len()
                &&& agrees(
                    program,
                    plan,
                    retained,
                    i,
                    base_a,
                    base_b,
                    after_x.shots[s],
                    after_y.shots[j],
                )
            },
            (Err(t), Err(u)) => t == u,
            _ => false,
        },
{
    let a = x.shots[s];
    let b = y.shots[j];
    match record {
        Some(id) => {
            if id > 0 {
                let count = if id > x.nrecords {
                    id as int
                } else {
                    x.nrecords
                };
                lemma_agrees_record(
                    program,
                    plan,
                    retained,
                    i,
                    base_a,
                    base_b,
                    a,
                    b,
                    id as int,
                    count,
                    bits_x[s],
                );
                if condition is Some {
                    lemma_agrees_value(
                        program,
                        plan,
                        retained,
                        i,
                        base_a,
                        base_b,
                        a.with_record(id as int, count, bits_x[s]),
                        b.with_record(id as int, count, bits_x[s]),
                        condition->0,
                        bits_x[s],
                    );
                }
            }
        },
        None => {
            if condition is Some {
                lemma_agrees_value(
                    program,
                    plan,
                    retained,
                    i,
                    base_a,
                    base_b,
                    a,
                    b,
                    condition->0,
                    bits_x[s],
                );
            }
        },
    }
}

/// A merge gives the same on both sides, and touches the amplitudes alone.
pub proof fn lemma_merge_agrees<A, K: ActiveKernels<A>>(
    k: &K,
    x: Block<A>,
    y: Block<A>,
    list: Seq<usize>,
    target: int,
    from: int,
    end: int,
    s: int,
    j: int,
)
    requires
        x == (Block { shots: x.shots, ..y }),
        0 <= s < x.shots.len(),
        0 <= j < y.shots.len(),
        x.shots[s].lanes == y.shots[j].lanes,
    ensures
        match (merge_from(k, x, list, target, from, end), merge_from(k, y, list, target, from, end)) {
            (Ok(after_x), Ok(after_y)) => {
                &&& after_x == (Block { shots: after_x.shots, ..after_y })
                &&& after_x == (Block { shots: after_x.shots, parts: after_x.parts, ..x })
                &&& after_x.shots.len() == x.shots.len()
                &&& after_y.shots.len() == y.shots.len()
                &&& after_x.shots[s].lanes == after_y.shots[j].lanes
                &&& after_x.shots[s] == (Shot { lanes: after_x.shots[s].lanes, ..x.shots[s] })
                &&& after_y.shots[j] == (Shot { lanes: after_y.shots[j].lanes, ..y.shots[j] })
            },
            (Err(t), Err(u)) => t == u,
            _ => false,
        },
    decreases end - from,
{
    if from < end {
        let source = list[from] as int;
        match (merge_one(k, x, target, source), merge_one(k, y, target, source)) {
            (Ok(next_x), Ok(next_y)) => {
                assert(next_x.parts =~= next_y.parts);
                assert(next_x.shots[s].lanes =~= next_y.shots[j].lanes);
                lemma_merge_agrees(k, next_x, next_y, list, target, from + 1, end, s, j);
            },
            _ => {},
        }
    }
}

/// Changing only the amplitudes, alike on both sides, keeps agreement.
pub proof fn lemma_agrees_lanes<A>(
    program: &FactoredInstructionProgram,
    plan: PresampledExpressionPlan,
    retained: Seq<Vec<i32>>,
    i: int,
    base_a: spec_fn(int, int) -> bool,
    base_b: spec_fn(int, int) -> bool,
    a: Shot<A>,
    b: Shot<A>,
    after_a: Shot<A>,
    after_b: Shot<A>,
)
    requires
        agrees(program, plan, retained, i, base_a, base_b, a, b),
        after_a == (Shot { lanes: after_a.lanes, ..a }),
        after_b == (Shot { lanes: after_b.lanes, ..b }),
        after_a.lanes == after_b.lanes,
    ensures
        agrees(program, plan, retained, i, base_a, base_b, after_a, after_b),
{
}

// ---------------------------------------------------------------------------
// Instructions
// ---------------------------------------------------------------------------
/// The instruction draws nothing, so it may run on discarded shots.
pub open spec fn is_pure(ins: FactoredInstruction) -> bool {
    match ins {
        FactoredInstruction::MeasurePrecomputedActivePauli(_) => false,
        FactoredInstruction::IntroduceDormantMeasurementBranch(_) => false,
        _ => true,
    }
}

/// The instruction may give the symbol its values.
pub open spec fn may_assign(ins: FactoredInstruction, c: i32) -> bool {
    match ins {
        FactoredInstruction::RecordMeasurement(inst) => inst.record_condition == Some(c),
        FactoredInstruction::MeasurePrecomputedActivePauli(inst) => inst.branch == c
            || inst.record_condition == Some(c),
        FactoredInstruction::IntroduceDormantMeasurementBranch(inst) => inst.branch == c
            || inst.record_condition == Some(c),
        _ => false,
    }
}

/// Every symbol gets its values from one instruction.
pub open spec fn single_assignment(program: &FactoredInstructionProgram) -> bool {
    forall|i: int, j: int, c: i32|
        0 <= i < j < program.instructions@.len() && #[trigger] may_assign(
            program.instructions@[i],
            c,
        ) ==> !#[trigger] may_assign(program.instructions@[j], c)
}

/// No instruction from `i` on assigns a symbol that already has values.
pub open spec fn unclaimed<A>(program: &FactoredInstructionProgram, i: int, b: Block<A>) -> bool {
    forall|c: i32, m: int|
        b.known.contains(c) && i <= m < program.instructions@.len() ==> !#[trigger] may_assign(
            program.instructions@[m],
            c,
        )
}

proof fn lemma_merge_known<A, K: ActiveKernels<A>>(
    k: &K,
    b: Block<A>,
    list: Seq<usize>,
    target: int,
    from: int,
    end: int,
)
    ensures
        match merge_from(k, b, list, target, from, end) {
            Ok(after) => after.known == b.known && after.nrecords == b.nrecords,
            Err(_) => true,
        },
    decreases end - from,
{
    if from < end {
        match merge_one(k, b, target, list[from] as int) {
            Ok(next) => {
                lemma_merge_known(k, next, list, target, from + 1, end);
            },
            Err(_) => {},
        }
    }
}

/// An instruction makes known what it may assign, and no more. Records stay
/// within the ids that an instruction can name.
pub proof fn lemma_known_step<A, K: ActiveKernels<A>>(
    k: &K,
    base: spec_fn(int, int) -> bool,
    plan: PresampledExpressionPlan,
    program: &FactoredInstructionProgram,
    i: int,
    b: Block<A>,
)
    requires
        0 <= i < program.instructions@.len(),
        single_assignment(program),
        unclaimed(program, i, b),
    ensures
        match step(k, base, plan, program, i, b) {
            Ok(after) => {
                &&& unclaimed(program, i + 1, after)
                &&& b.nrecords <= i32::MAX ==> after.nrecords <= i32::MAX
            },
            Err(_) => true,
        },
{
    let ins = program.instructions@[i];
    if b.split {
        let parts = program.active_component_plan->0;
        let payload = parts.instruction_steps@[i].payload as int;
        let rotation = parts.rotations@[payload];
        lemma_merge_known(
            k,
            b,
            parts.merge_components@,
            rotation.component as int,
            rotation.merge_offset as int + 1,
            rotation.merge_offset as int + rotation.merge_count as int,
        );
        let measurement = parts.measurements@[payload];
        lemma_merge_known(
            k,
            b,
            parts.merge_components@,
            measurement.component as int,
            measurement.merge_offset as int + 1,
            measurement.merge_offset as int + measurement.merge_count as int,
        );
    }
    match step(k, base, plan, program, i, b) {
        Ok(after) => {
            assert forall|c: i32, m: int|
                after.known.contains(c) && i + 1 <= m < program.instructions@.len() implies !(
            #[trigger] may_assign(program.instructions@[m], c)) by {
                if !b.known.contains(c) {
                    assert(may_assign(program.instructions@[i], c));
                }
            }
        },
        Err(_) => {},
    }
}

/// An instruction that draws nothing does to both sides the same: it succeeds or
/// fails alike, and shots that agree agree afterwards.
#[verifier::rlimit(80)]
#[verifier::spinoff_prover]
pub proof fn lemma_pure_step<A, K: ActiveKernels<A>>(
    k: &K,
    program: &FactoredInstructionProgram,
    plan: PresampledExpressionPlan,
    retained: Seq<Vec<i32>>,
    i: int,
    base_a: spec_fn(int, int) -> bool,
    base_b: spec_fn(int, int) -> bool,
    x: Block<A>,
    y: Block<A>,
    s: int,
    j: int,
)
    requires
        residuals_within(plan, program),
        single_assignment(program),
        0 <= i < program.instructions@.len(),
        is_pure(program.instructions@[i]),
        x == (Block { shots: x.shots, ..y }),
        unclaimed(program, i, x),
        0 <= x.nrecords,
        0 <= x.ndetectors,
        0 <= s < x.shots.len(),
        0 <= j < y.shots.len(),
        x.shots[s].records.len() == x.nrecords,
        agrees(program, plan, retained, i, base_a, base_b, x.shots[s], y.shots[j]),
    ensures
        match (step(k, base_a, plan, program, i, x), step(k, base_b, plan, program, i, y)) {
            (Ok(after_x), Ok(after_y)) => {
                &&& after_x == (Block { shots: after_x.shots, ..after_y })
                &&& after_x.shots.len() == x.shots.len()
                &&& after_y.shots.len() == y.shots.len()
                &&& agrees(
                    program,
                    plan,
                    retained,
                    i + 1,
                    base_a,
                    base_b,
                    after_x.shots[s],
                    after_y.shots[j],
                )
            },
            (Err(t), Err(u)) => t == u,
            _ => false,
        },
{
    let ins = program.instructions@[i];
    let a = x.shots[s];
    let b = y.shots[j];
    lemma_agrees_sign(program, plan, retained, i, base_a, base_b, a, b);
    lemma_agrees_next(program, plan, retained, i, i + 1, base_a, base_b, a, b);
    assert(sign_refusal(plan, i, x) == sign_refusal(plan, i, y));
    let signs_x = signs(base_a, plan, i, x);
    let signs_y = signs(base_b, plan, i, y);
    assert(signs_x[s] == signs_y[j]);
    if x.split {
        let parts = program.active_component_plan->0;
        let kind = parts.instruction_steps@[i].kind;
        let payload = parts.instruction_steps@[i].payload as int;
        if kind == ActiveComponentStepKind::Rotation {
            let rotation = parts.rotations@[payload];
            let at = rotation.component as int;
            lemma_merge_agrees(
                k,
                x,
                y,
                parts.merge_components@,
                at,
                rotation.merge_offset as int + 1,
                rotation.merge_offset as int + rotation.merge_count as int,
                s,
                j,
            );
            match (
                step(k, base_a, plan, program, i, x),
                step(k, base_b, plan, program, i, y),
            ) {
                (Ok(after_x), Ok(after_y)) => {
                    assert(after_x.parts =~= after_y.parts);
                    assert(after_x.shots[s].lanes =~= after_y.shots[j].lanes);
                    lemma_agrees_lanes(
                        program,
                        plan,
                        retained,
                        i + 1,
                        base_a,
                        base_b,
                        a,
                        b,
                        after_x.shots[s],
                        after_y.shots[j],
                    );
                },
                _ => {},
            }
        } else if kind == ActiveComponentStepKind::Promotion {
            match (
                step(k, base_a, plan, program, i, x),
                step(k, base_b, plan, program, i, y),
            ) {
                (Ok(after_x), Ok(after_y)) => {
                    assert(after_x.parts =~= after_y.parts);
                    assert(after_x.shots[s].lanes =~= after_y.shots[j].lanes);
                    lemma_agrees_lanes(
                        program,
                        plan,
                        retained,
                        i + 1,
                        base_a,
                        base_b,
                        a,
                        b,
                        after_x.shots[s],
                        after_y.shots[j],
                    );
                },
                _ => {},
            }
        }
    }
    if !x.split || program.active_component_plan->0.instruction_steps@[i].kind
        == ActiveComponentStepKind::Unaffected {
        match ins {
            FactoredInstruction::ApplyPrecomputedActivePauliRotation(inst) => {
                match (
                    step_whole(k, base_a, plan, ins, i, x),
                    step_whole(k, base_b, plan, ins, i, y),
                ) {
                    (Ok(after_x), Ok(after_y)) => {
                        assert(after_x.shots[s].lanes =~= after_y.shots[j].lanes);
                        lemma_agrees_lanes(
                            program,
                            plan,
                            retained,
                            i + 1,
                            base_a,
                            base_b,
                            a,
                            b,
                            after_x.shots[s],
                            after_y.shots[j],
                        );
                    },
                    _ => {},
                }
            },
            FactoredInstruction::PromoteDormantRotation(inst) => {
                match (
                    step_whole(k, base_a, plan, ins, i, x),
                    step_whole(k, base_b, plan, ins, i, y),
                ) {
                    (Ok(after_x), Ok(after_y)) => {
                        assert(after_x.shots[s].lanes =~= after_y.shots[j].lanes);
                        lemma_agrees_lanes(
                            program,
                            plan,
                            retained,
                            i + 1,
                            base_a,
                            base_b,
                            a,
                            b,
                            after_x.shots[s],
                            after_y.shots[j],
                        );
                    },
                    _ => {},
                }
            },
            FactoredInstruction::RecordMeasurement(inst) => {
                if inst.exp_val is None {
                    if inst.record_condition is Some {
                        assert(may_assign(ins, inst.record_condition->0));
                    }
                    lemma_write_agrees(
                        program,
                        plan,
                        retained,
                        i + 1,
                        base_a,
                        base_b,
                        x,
                        y,
                        inst.record,
                        signs_x,
                        signs_y,
                        inst.record_condition,
                        s,
                        j,
                    );
                }
            },
            FactoredInstruction::RecordDetector(inst) => {
                if detector_refusal(plan, inst, i, x) is None {
                    lemma_agrees_detector(program, plan, retained, i, base_a, base_b, inst, a, b);
                }
                assert(detector_refusal(plan, inst, i, x) == detector_refusal(plan, inst, i, y));
                match (
                    step_whole(k, base_a, plan, ins, i, x),
                    step_whole(k, base_b, plan, ins, i, y),
                ) {
                    (Ok(after_x), Ok(after_y)) => {
                        assert(after_x.shots[s].detectors =~= after_y.shots[j].detectors);
                    },
                    _ => {},
                }
            },
            _ => {},
        }
    }
}

} // verus!
