//! Whether a program can be sampled: the conditions that preparation and
//! execution ask of a planned program, decided.
use vstd::prelude::*;
use std::collections::HashSet;
use crate::bits::{symbol_word_count, word_bit, words_for_bits};
use crate::driver::{ids_bounded, ins_bounded, samplable};
use crate::executor::{
    active_length, default_batch_count, dimension, padded_batch_active_pitch, program_fits,
};
use crate::exogenous::{
    exogenous_disjoint, exogenous_positive, family_count, family_has, sets_have,
};
use crate::postselect_model::{may_assign, single_assignment};
use crate::program::{
    plans, positive_if_named, ActiveComponentPlan, ActiveComponentStep, ActiveComponentStepKind,
    FactoredInstruction, FactoredInstructionProgram,
};
use crate::runtime::{component_plan_wf, touches_amplitudes};
use crate::sampler::{
    batch_of, chunk_size, preparable, sample_chunk_or_default, SamplerOptions, SamplingInput,
};
use crate::symbolic::{
    all_positive, canonical, copy_conditions, masks_exact, masks_select, strictly_ascending, SymbolicBool,
    SymbolicBoolEvaluationPlan,
};

verus! {

broadcast use {vstd::std_specs::hash::group_hash_axioms, crate::bits::group_word_bits};

// ---------------------------------------------------------------------------
// Lists
// ---------------------------------------------------------------------------
fn list_has(list: &Vec<i32>, c: i32) -> (r: bool)
    ensures
        r == list@.contains(c),
{
    let mut i: usize = 0;
    while i < list.len()
        invariant
            i <= list@.len(),
            forall|j: int| 0 <= j < i ==> #[trigger] list@[j] != c,
        decreases list@.len() - i,
    {
        if list[i] == c {
            assert(list@[i as int] == c);
            return true;
        }
        i += 1;
    }
    false
}

fn lists_agree(a: &Vec<i32>, b: &Vec<i32>) -> (r: bool)
    ensures
        r == (a@ == b@),
{
    if a.len() != b.len() {
        return false;
    }
    let mut i: usize = 0;
    while i < a.len()
        invariant
            i <= a@.len(),
            a@.len() == b@.len(),
            forall|j: int| 0 <= j < i ==> #[trigger] a@[j] == b@[j],
        decreases a@.len() - i,
    {
        if a[i] != b[i] {
            return false;
        }
        i += 1;
    }
    assert(a@ =~= b@);
    true
}

fn list_positive(list: &Vec<i32>) -> (r: bool)
    ensures
        r == all_positive(list@),
{
    let mut i: usize = 0;
    while i < list.len()
        invariant
            i <= list@.len(),
            forall|j: int| 0 <= j < i ==> 0 < #[trigger] list@[j],
        decreases list@.len() - i,
    {
        if list[i] <= 0 {
            assert(list@[i as int] <= 0);
            return false;
        }
        i += 1;
    }
    true
}

fn list_canonical(list: &Vec<i32>) -> (r: bool)
    ensures
        r == canonical(list@),
{
    let mut i: usize = 1;
    while i < list.len()
        invariant
            1 <= i,
            i <= list@.len() || list@.len() == 0 && i == 1,
            forall|p: int, q: int| 0 <= p < q < i && q < list@.len() ==> list@[p] < list@[q],
        decreases list@.len() - i,
    {
        if list[i - 1] >= list[i] {
            assert(!strictly_ascending(list@)) by {
                assert(list@[i - 1] >= list@[i as int]);
            }
            return false;
        }
        i += 1;
    }
    list_positive(list)
}

fn indices_ascend(list: &Vec<usize>) -> (r: bool)
    ensures
        r == forall|i: int, j: int| 0 <= i < j < list@.len() ==> list@[i] < list@[j],
{
    let mut i: usize = 1;
    while i < list.len()
        invariant
            1 <= i,
            i <= list@.len() || list@.len() == 0 && i == 1,
            forall|p: int, q: int| 0 <= p < q < i && q < list@.len() ==> list@[p] < list@[q],
        decreases list@.len() - i,
    {
        if list[i - 1] >= list[i] {
            assert(list@[i - 1] >= list@[i as int]);
            return false;
        }
        i += 1;
    }
    true
}

// ---------------------------------------------------------------------------
// Expressions and instructions
// ---------------------------------------------------------------------------
/// Every bit of the masks is a listed condition.
spec fn masks_listed(indices: Seq<usize>, masks: Seq<u64>, conditions: Seq<i32>) -> bool {
    forall|i: int, j: int|
        0 <= i < masks.len() && 0 <= j < 64 && #[trigger] word_bit(masks[i], j)
            ==> conditions.contains((64 * indices[i] + j + 1) as i32)
}

/// Every condition is a bit of the masks.
spec fn conditions_masked(indices: Seq<usize>, masks: Seq<u64>, conditions: Seq<i32>) -> bool {
    forall|k: int|
        0 <= k < conditions.len() ==> masks_select(indices, masks, #[trigger] conditions[k] - 1)
}

/// The two directions make up the selection.
proof fn lemma_selection(indices: Seq<usize>, masks: Seq<u64>, conditions: Seq<i32>)
    requires
        indices.len() == masks.len(),
        all_positive(conditions),
        masks_exact(indices, masks),
    ensures
        (masks_listed(indices, masks, conditions) && conditions_masked(indices, masks, conditions))
            == (forall|b: int|
            0 <= b < i32::MAX ==> #[trigger] masks_select(indices, masks, b) == conditions.contains(
                (b + 1) as i32,
            )),
{
    if masks_listed(indices, masks, conditions) && conditions_masked(indices, masks, conditions) {
        assert forall|b: int| 0 <= b < i32::MAX implies #[trigger] masks_select(indices, masks, b)
            == conditions.contains((b + 1) as i32) by {
            if masks_select(indices, masks, b) {
                let i = choose|i: int|
                    0 <= i < indices.len() && #[trigger] indices[i] == b / 64 && word_bit(
                        masks[i],
                        b % 64,
                    );
                assert(64 * indices[i] + b % 64 == b);
            }
            if conditions.contains((b + 1) as i32) {
                let k = choose|k: int| 0 <= k < conditions.len() && conditions[k] == (b + 1) as i32;
                assert(masks_select(indices, masks, conditions[k] - 1));
            }
        }
    }
    if forall|b: int|
        0 <= b < i32::MAX ==> #[trigger] masks_select(indices, masks, b) == conditions.contains(
            (b + 1) as i32,
        ) {
        assert forall|i: int, j: int|
            0 <= i < masks.len() && 0 <= j < 64 && #[trigger] word_bit(
                masks[i],
                j,
            ) implies conditions.contains((64 * indices[i] + j + 1) as i32) by {
            let b = 64 * indices[i] + j;
            assert(b / 64 == indices[i] && b % 64 == j);
            assert(masks_select(indices, masks, b));
        }
        assert forall|k: int| 0 <= k < conditions.len() implies masks_select(
            indices,
            masks,
            #[trigger] conditions[k] - 1,
        ) by {
            let b = conditions[k] - 1;
            assert((b + 1) as i32 == conditions[k]);
            assert(conditions.contains((b + 1) as i32));
            assert(masks_select(indices, masks, b));
        }
    }
}

/// The bits of one mask are listed conditions, at least one, and none is past the
/// last symbol.
fn mask_in_form(index: usize, mask: u64, conditions: &Vec<i32>) -> (r: bool)
    requires
        index <= (i32::MAX - 1) / 64,
    ensures
        r == (mask != 0 && (forall|j: int|
            0 <= j < 64 && #[trigger] word_bit(mask, j) ==> 64 * index + j < i32::MAX
                && conditions@.contains((64 * index + j + 1) as i32))),
{
    if mask == 0 {
        return false;
    }
    let mut j: u64 = 0;
    while j < 64
        invariant
            j <= 64,
            index <= (i32::MAX - 1) / 64,
            forall|q: int|
                0 <= q < j && #[trigger] word_bit(mask, q) ==> 64 * index + q < i32::MAX
                    && conditions@.contains((64 * index + q + 1) as i32),
        decreases 64 - j,
    {
        if (mask >> j) & 1 == 1 {
            assert(word_bit(mask, j as int));
            let b: u64 = 64 * (index as u64) + j;
            if b >= 2147483647 {
                return false;
            }
            if !list_has(conditions, (b + 1) as i32) {
                return false;
            }
        }
        j += 1;
    }
    true
}

/// A mask names the condition.
fn condition_masked(indices: &Vec<usize>, masks: &Vec<u64>, c: i32) -> (r: bool)
    requires
        c > 0,
        indices@.len() == masks@.len(),
    ensures
        r == masks_select(indices@, masks@, c - 1),
{
    let bit: u32 = (c - 1) as u32;
    let word: usize = (bit / 64) as usize;
    let offset: u64 = (bit % 64) as u64;
    let mut i: usize = 0;
    while i < indices.len()
        invariant
            i <= indices@.len(),
            indices@.len() == masks@.len(),
            bit == c - 1,
            word == bit as int / 64,
            offset == bit as int % 64,
            forall|q: int|
                0 <= q < i ==> !(#[trigger] indices@[q] == word && word_bit(
                    masks@[q],
                    offset as int,
                )),
        decreases indices@.len() - i,
    {
        if indices[i] == word && (masks[i] >> offset) & 1 == 1 {
            assert(word_bit(masks@[i as int], offset as int));
            assert(masks_select(indices@, masks@, c - 1));
            return true;
        }
        i += 1;
    }
    assert(!masks_select(indices@, masks@, c - 1));
    false
}

/// The plan names exactly its conditions.
fn plan_in_form(plan: &SymbolicBoolEvaluationPlan) -> (r: bool)
    ensures
        r == plan.wf(),
{
    let ghost indices = plan.word_indices@;
    let ghost masks = plan.word_masks@;
    let ghost conditions = plan.conditions@;
    if !list_canonical(&plan.conditions) || plan.word_indices.len() != plan.word_masks.len()
        || !indices_ascend(&plan.word_indices) {
        return false;
    }
    let mut i: usize = 0;
    while i < plan.word_masks.len()
        invariant
            i <= masks.len(),
            masks == plan.word_masks@,
            indices == plan.word_indices@,
            conditions == plan.conditions@,
            indices.len() == masks.len(),
            forall|q: int|
                0 <= q < i ==> #[trigger] indices[q] <= (i32::MAX - 1) / 64 && masks[q] != 0,
            forall|q: int, j: int|
                0 <= q < i && 0 <= j < 64 && #[trigger] word_bit(masks[q], j) ==> 64 * indices[q] + j
                    < i32::MAX && conditions.contains((64 * indices[q] + j + 1) as i32),
        decreases masks.len() - i,
    {
        if plan.word_indices[i] > 33554431 {
            assert(indices[i as int] > (i32::MAX - 1) / 64);
            return false;
        }
        if !mask_in_form(plan.word_indices[i], plan.word_masks[i], &plan.conditions) {
            proof {
                if plan.wf() {
                    lemma_selection(indices, masks, conditions);
                    assert(masks[i as int] != 0);
                    assert(masks_listed(indices, masks, conditions));
                    assert(false);
                }
            }
            return false;
        }
        i += 1;
    }
    assert(masks_exact(indices, masks)) by {
        assert forall|q: int| 0 <= q < masks.len() implies #[trigger] masks[q] != 0 by {
            assert(indices[q] <= (i32::MAX - 1) / 64);
        }
    }
    assert(masks_listed(indices, masks, conditions));
    let mut k: usize = 0;
    while k < plan.conditions.len()
        invariant
            k <= conditions.len(),
            conditions == plan.conditions@,
            masks == plan.word_masks@,
            indices == plan.word_indices@,
            indices.len() == masks.len(),
            all_positive(conditions),
            masks_exact(indices, masks),
            forall|q: int|
                0 <= q < k ==> masks_select(indices, masks, #[trigger] conditions[q] - 1),
        decreases conditions.len() - k,
    {
        if !condition_masked(&plan.word_indices, &plan.word_masks, plan.conditions[k]) {
            proof {
                if plan.wf() {
                    lemma_selection(indices, masks, conditions);
                    assert(conditions_masked(indices, masks, conditions));
                    assert(masks_select(indices, masks, conditions[k as int] - 1));
                    assert(false);
                }
            }
            return false;
        }
        k += 1;
    }
    proof {
        lemma_selection(indices, masks, conditions);
        assert(conditions_masked(indices, masks, conditions));
    }
    true
}

/// The plan is one of the expression.
fn plan_matches(plan: &SymbolicBoolEvaluationPlan, outcome: &SymbolicBool) -> (r: bool)
    ensures
        r == plans(*plan, *outcome),
{
    list_canonical(&outcome.conditions) && plan_in_form(plan) && plan.constant == outcome.constant
        && lists_agree(&plan.conditions, &outcome.conditions)
}

fn names_a_symbol(condition: Option<i32>) -> (r: bool)
    ensures
        r == positive_if_named(condition),
{
    match condition {
        Some(c) => c > 0,
        None => true,
    }
}

fn instruction_in_form(ins: &FactoredInstruction) -> (r: bool)
    ensures
        r == ins.wf(),
{
    match ins {
        FactoredInstruction::ApplyPrecomputedActivePauliRotation(inst) => plan_in_form(
            &inst.sign_plan,
        ),
        FactoredInstruction::PromoteDormantRotation(inst) => plan_in_form(&inst.sign_plan),
        FactoredInstruction::RecordMeasurement(inst) => plan_matches(
            &inst.outcome_plan,
            &inst.outcome,
        ) && names_a_symbol(inst.record_condition),
        FactoredInstruction::RecordDetector(inst) => plan_matches(
            &inst.outcome_plan,
            &inst.outcome,
        ),
        FactoredInstruction::MeasurePrecomputedActivePauli(inst) => inst.branch > 0
            && plan_matches(&inst.outcome_plan, &inst.outcome) && names_a_symbol(
            inst.record_condition,
        ),
        FactoredInstruction::IntroduceDormantMeasurementBranch(inst) => inst.branch > 0
            && plan_matches(&inst.outcome_plan, &inst.outcome) && names_a_symbol(
            inst.record_condition,
        ),
    }
}

fn program_in_form(program: &FactoredInstructionProgram) -> (r: bool)
    ensures
        r == program.wf(),
{
    if program.instructions.len() >= 2147483647 {
        return false;
    }
    let mut i: usize = 0;
    while i < program.instructions.len()
        invariant
            i <= program.instructions@.len(),
            forall|k: int| 0 <= k < i ==> (#[trigger] program.instructions@[k]).wf(),
        decreases program.instructions@.len() - i,
    {
        if !instruction_in_form(&program.instructions[i]) {
            assert(!program.instructions@[i as int].wf());
            return false;
        }
        i += 1;
    }
    true
}

// ---------------------------------------------------------------------------
// Components and identifiers
// ---------------------------------------------------------------------------
fn moves_amplitudes(ins: &FactoredInstruction) -> (r: bool)
    ensures
        r == touches_amplitudes(*ins),
{
    match ins {
        FactoredInstruction::ApplyPrecomputedActivePauliRotation(_) => true,
        FactoredInstruction::PromoteDormantRotation(_) => true,
        FactoredInstruction::MeasurePrecomputedActivePauli(_) => true,
        _ => false,
    }
}

fn sum_fits(a: usize, b: usize) -> (r: bool)
    ensures
        r == (a + b <= usize::MAX),
{
    a <= usize::MAX - b
}

fn product_fits(a: usize, b: usize) -> (r: bool)
    ensures
        r == (a * b <= usize::MAX),
{
    match a.checked_mul(b) {
        Some(_) => true,
        None => false,
    }
}

/// The steps of the component plan point into its lists.
fn components_in_form(parts: &ActiveComponentPlan, instructions: &Vec<FactoredInstruction>) -> (r: bool)
    ensures
        r == component_plan_wf(*parts, instructions@),
{
    if parts.instruction_steps.len() != instructions.len() {
        return false;
    }
    let mut i: usize = 0;
    while i < instructions.len()
        invariant
            i <= instructions@.len(),
            parts.instruction_steps@.len() == instructions@.len(),
            forall|k: int|
                0 <= k < i ==> step_in_range(*parts, instructions@, #[trigger] parts.instruction_steps@[k], k),
        decreases instructions@.len() - i,
    {
        let step: &ActiveComponentStep = &parts.instruction_steps[i];
        let fine: bool = match step.kind {
            ActiveComponentStepKind::Rotation => step.payload < parts.rotations.len(),
            ActiveComponentStepKind::Promotion => step.payload < parts.promotions.len(),
            ActiveComponentStepKind::Measurement => step.payload < parts.measurements.len(),
            ActiveComponentStepKind::Unaffected => !moves_amplitudes(&instructions[i]),
            ActiveComponentStepKind::IgnoredGlobalPhase => true,
        };
        if !fine {
            proof {
                let bad = parts.instruction_steps@[i as int];
                assert(!step_in_range(*parts, instructions@, bad, i as int));
            }
            return false;
        }
        i += 1;
    }
    assert forall|k: int| 0 <= k < instructions@.len() implies {
        let step = #[trigger] parts.instruction_steps@[k];
        match step.kind {
            ActiveComponentStepKind::Rotation => step.payload < parts.rotations@.len(),
            ActiveComponentStepKind::Promotion => step.payload < parts.promotions@.len(),
            ActiveComponentStepKind::Measurement => step.payload < parts.measurements@.len(),
            ActiveComponentStepKind::Unaffected => !touches_amplitudes(instructions@[k]),
            ActiveComponentStepKind::IgnoredGlobalPhase => true,
        }
    } by {
        assert(step_in_range(*parts, instructions@, parts.instruction_steps@[k], k));
    }
    let mut q: usize = 0;
    while q < parts.rotations.len()
        invariant
            q <= parts.rotations@.len(),
            forall|k: int|
                0 <= k < q ==> (#[trigger] parts.rotations@[k]).merge_offset
                    + parts.rotations@[k].merge_count <= usize::MAX,
        decreases parts.rotations@.len() - q,
    {
        if !sum_fits(parts.rotations[q].merge_offset, parts.rotations[q].merge_count) {
            assert(parts.rotations@[q as int].merge_offset + parts.rotations@[q as int].merge_count
                > usize::MAX);
            return false;
        }
        q += 1;
    }
    let mut m: usize = 0;
    while m < parts.measurements.len()
        invariant
            m <= parts.measurements@.len(),
            forall|k: int|
                0 <= k < m ==> (#[trigger] parts.measurements@[k]).merge_offset
                    + parts.measurements@[k].merge_count <= usize::MAX,
        decreases parts.measurements@.len() - m,
    {
        if !sum_fits(parts.measurements[m].merge_offset, parts.measurements[m].merge_count) {
            assert(parts.measurements@[m as int].merge_offset
                + parts.measurements@[m as int].merge_count > usize::MAX);
            return false;
        }
        m += 1;
    }
    true
}

/// The step points into the lists of the plan.
spec fn step_in_range(
    parts: ActiveComponentPlan,
    instructions: Seq<FactoredInstruction>,
    step: ActiveComponentStep,
    i: int,
) -> bool {
    match step.kind {
        ActiveComponentStepKind::Rotation => step.payload < parts.rotations@.len(),
        ActiveComponentStepKind::Promotion => step.payload < parts.promotions@.len(),
        ActiveComponentStepKind::Measurement => step.payload < parts.measurements@.len(),
        ActiveComponentStepKind::Unaffected => !touches_amplitudes(instructions[i]),
        ActiveComponentStepKind::IgnoredGlobalPhase => true,
    }
}

fn id_bounded(id: i32, bound: usize) -> (r: bool)
    ensures
        r == (id <= bound),
{
    id <= 0 || id as u32 as u64 <= bound as u64
}

fn record_bounded(record: Option<i32>, bound: usize) -> (r: bool)
    ensures
        r == (record is Some ==> record->0 <= bound),
{
    match record {
        Some(id) => id_bounded(id, bound),
        None => true,
    }
}

/// Records and detectors are declared ones.
fn ids_in_range(program: &FactoredInstructionProgram) -> (r: bool)
    ensures
        r == ids_bounded(program),
{
    let mut i: usize = 0;
    while i < program.instructions.len()
        invariant
            i <= program.instructions@.len(),
            forall|k: int|
                0 <= k < i ==> ins_bounded(
                    #[trigger] program.instructions@[k],
                    program.nrecords as int,
                    program.ndetectors as int,
                ),
        decreases program.instructions@.len() - i,
    {
        let fine: bool = match &program.instructions[i] {
            FactoredInstruction::RecordMeasurement(inst) => record_bounded(
                inst.record,
                program.nrecords,
            ),
            FactoredInstruction::MeasurePrecomputedActivePauli(inst) => record_bounded(
                inst.record,
                program.nrecords,
            ),
            FactoredInstruction::IntroduceDormantMeasurementBranch(inst) => record_bounded(
                inst.record,
                program.nrecords,
            ),
            FactoredInstruction::RecordDetector(inst) => id_bounded(
                inst.detector,
                program.ndetectors,
            ),
            _ => true,
        };
        if !fine {
            assert(!ins_bounded(
                program.instructions@[i as int],
                program.nrecords as int,
                program.ndetectors as int,
            ));
            return false;
        }
        i += 1;
    }
    true
}

/// The symbols that the instruction may assign.
fn assigned_by(ins: &FactoredInstruction) -> (r: (Option<i32>, Option<i32>))
    ensures
        forall|c: i32| #[trigger]
            may_assign(*ins, c) == (r.0 == Some(c) || r.1 == Some(c)),
{
    match ins {
        FactoredInstruction::RecordMeasurement(inst) => (None, inst.record_condition),
        FactoredInstruction::MeasurePrecomputedActivePauli(inst) => (
            Some(inst.branch),
            inst.record_condition,
        ),
        FactoredInstruction::IntroduceDormantMeasurementBranch(inst) => (
            Some(inst.branch),
            inst.record_condition,
        ),
        _ => (None, None),
    }
}

/// Some instruction below `n` may assign the symbol.
spec fn assigned_below(program: &FactoredInstructionProgram, n: int, c: i32) -> bool {
    exists|i: int| 0 <= i < n && may_assign(#[trigger] program.instructions@[i], c)
}

fn seen_before(seen: &HashSet<i32>, c: Option<i32>) -> (r: bool)
    ensures
        r == (c is Some && seen@.contains(c->0)),
{
    match c {
        Some(c) => seen.contains(&c),
        None => false,
    }
}

/// No symbol is assigned twice.
fn assigns_once(program: &FactoredInstructionProgram) -> (r: bool)
    ensures
        r == single_assignment(program),
{
    let mut seen: HashSet<i32> = HashSet::new();
    let mut i: usize = 0;
    while i < program.instructions.len()
        invariant
            i <= program.instructions@.len(),
            forall|c: i32| #[trigger] seen@.contains(c) == assigned_below(program, i as int, c),
            forall|p: int, q: int, c: i32|
                0 <= p < q < i && #[trigger] may_assign(program.instructions@[p], c)
                    ==> !#[trigger] may_assign(program.instructions@[q], c),
        decreases program.instructions@.len() - i,
    {
        let ghost ins = program.instructions@[i as int];
        let (first, second) = assigned_by(&program.instructions[i]);
        if seen_before(&seen, first) || seen_before(&seen, second) {
            proof {
                let c = if first is Some && seen@.contains(first->0) {
                    first->0
                } else {
                    second->0
                };
                assert(assigned_below(program, i as int, c));
                let p = choose|p: int|
                    0 <= p < i && may_assign(#[trigger] program.instructions@[p], c);
                assert(may_assign(program.instructions@[p], c) && may_assign(ins, c));
            }
            return false;
        }
        let ghost before = seen@;
        match first {
            Some(c) => {
                seen.insert(c);
            },
            None => {},
        }
        match second {
            Some(c) => {
                seen.insert(c);
            },
            None => {},
        }
        proof {
            assert forall|c: i32| #[trigger] seen@.contains(c) == assigned_below(
                program,
                i + 1,
                c,
            ) by {
                assert(seen@.contains(c) == (before.contains(c) || may_assign(ins, c)));
                if may_assign(ins, c) {
                    assert(may_assign(program.instructions@[i as int], c));
                }
                if before.contains(c) {
                    let p = choose|p: int|
                        0 <= p < i && may_assign(#[trigger] program.instructions@[p], c);
                    assert(0 <= p < i + 1);
                }
            }
            assert forall|p: int, q: int, c: i32|
                0 <= p < q < i + 1 && #[trigger] may_assign(
                    program.instructions@[p],
                    c,
                ) implies !#[trigger] may_assign(program.instructions@[q], c) by {
                if q == i {
                    assert(assigned_below(program, i as int, c));
                    assert(before.contains(c));
                }
            }
        }
        i += 1;
    }
    true
}

// ---------------------------------------------------------------------------
// Sampled conditions
// ---------------------------------------------------------------------------
/// Every condition of every list is positive.
fn sets_positive(sets: &Vec<Vec<i32>>) -> (r: bool)
    ensures
        r == forall|k: int| 0 <= k < sets@.len() ==> all_positive((#[trigger] sets@[k])@),
{
    let mut k: usize = 0;
    while k < sets.len()
        invariant
            k <= sets@.len(),
            forall|q: int| 0 <= q < k ==> all_positive((#[trigger] sets@[q])@),
        decreases sets@.len() - k,
    {
        if !list_positive(&sets[k]) {
            assert(!all_positive(sets@[k as int]@));
            return false;
        }
        k += 1;
    }
    true
}

fn sampled_positive(program: &FactoredInstructionProgram) -> (r: bool)
    ensures
        r == exogenous_positive(program),
{
    let mut j: usize = 0;
    while j < program.sampled_categorical_distributions.len()
        invariant
            j <= program.sampled_categorical_distributions@.len(),
            forall|q: int|
                0 <= q < j ==> all_positive(
                    (#[trigger] program.sampled_categorical_distributions@[q]).conditions@,
                ),
        decreases program.sampled_categorical_distributions@.len() - j,
    {
        if !list_positive(&program.sampled_categorical_distributions[j].conditions) {
            assert(!all_positive(
                program.sampled_categorical_distributions@[j as int].conditions@,
            ));
            return false;
        }
        j += 1;
    }
    let mut g: usize = 0;
    while g < program.sampled_rare_categorical_groups.len()
        invariant
            g <= program.sampled_rare_categorical_groups@.len(),
            forall|q: int, k: int|
                0 <= q < g && 0 <= k < program.sampled_rare_categorical_groups@[q].conditions@.len()
                    ==> all_positive(
                    (#[trigger] program.sampled_rare_categorical_groups@[q].conditions@[k])@,
                ),
        decreases program.sampled_rare_categorical_groups@.len() - g,
    {
        if !sets_positive(&program.sampled_rare_categorical_groups[g].conditions) {
            proof {
                let sets = program.sampled_rare_categorical_groups@[g as int].conditions@;
                let k = choose|k: int|
                    0 <= k < sets.len() && !all_positive((#[trigger] sets[k])@);
                assert(!all_positive(
                    program.sampled_rare_categorical_groups@[g as int].conditions@[k]@,
                ));
            }
            return false;
        }
        g += 1;
    }
    if !list_positive(&program.sampled_bernoulli_conditions) {
        return false;
    }
    let mut l: usize = 0;
    while l < program.sampled_low_probability_bernoulli_groups.len()
        invariant
            l <= program.sampled_low_probability_bernoulli_groups@.len(),
            forall|q: int|
                0 <= q < l ==> all_positive(
                    (#[trigger] program.sampled_low_probability_bernoulli_groups@[q]).conditions@,
                ),
        decreases program.sampled_low_probability_bernoulli_groups@.len() - l,
    {
        if !list_positive(&program.sampled_low_probability_bernoulli_groups[l].conditions) {
            assert(!all_positive(
                program.sampled_low_probability_bernoulli_groups@[l as int].conditions@,
            ));
            return false;
        }
        l += 1;
    }
    true
}

/// Some family below `n` samples the condition.
spec fn sampled_below(program: &FactoredInstructionProgram, n: int, c: i32) -> bool {
    exists|j: int| 0 <= j < n && #[trigger] family_has(program, j, c)
}

/// No condition of the list was seen.
fn none_seen(seen: &HashSet<i32>, list: &Vec<i32>) -> (r: bool)
    ensures
        r == forall|c: i32| #[trigger] list@.contains(c) ==> !seen@.contains(c),
{
    let mut i: usize = 0;
    while i < list.len()
        invariant
            i <= list@.len(),
            forall|q: int| 0 <= q < i ==> !seen@.contains(#[trigger] list@[q]),
        decreases list@.len() - i,
    {
        if seen.contains(&list[i]) {
            assert(list@.contains(list@[i as int]));
            return false;
        }
        i += 1;
    }
    true
}

fn mark_seen(seen: &mut HashSet<i32>, list: &Vec<i32>)
    ensures
        forall|c: i32| #[trigger]
            final(seen)@.contains(c) == (old(seen)@.contains(c) || list@.contains(c)),
{
    let ghost before = seen@;
    let mut i: usize = 0;
    while i < list.len()
        invariant
            i <= list@.len(),
            forall|c: i32| #[trigger]
                seen@.contains(c) == (before.contains(c) || list@.take(i as int).contains(c)),
        decreases list@.len() - i,
    {
        let ghost held = seen@;
        seen.insert(list[i]);
        proof {
            let x = list@[i as int];
            assert(list@.take(i + 1) =~= list@.take(i as int).push(x));
            assert forall|c: i32| #[trigger] seen@.contains(c) == (before.contains(c) || list@.take(
                i + 1,
            ).contains(c)) by {
                assert(seen@.contains(c) == (held.contains(c) || c == x));
                if list@.take(i as int).contains(c) {
                    let q = choose|q: int|
                        0 <= q < list@.take(i as int).len() && list@.take(i as int)[q] == c;
                    assert(list@.take(i + 1)[q] == c);
                }
                if c == x {
                    assert(list@.take(i + 1)[i as int] == c);
                }
                let longer = list@.take(i + 1);
                if longer.contains(c) && c != x {
                    let q = choose|q: int| 0 <= q < longer.len() && longer[q] == c;
                    assert(q != i);
                    assert(list@.take(i as int)[q] == c);
                }
            }
        }
        i += 1;
    }
    assert(list@.take(i as int) =~= list@);
}

/// The conditions of family `j`.
fn family_conditions(program: &FactoredInstructionProgram, j: u128) -> (r: Vec<i32>)
    requires
        j < family_count(program),
    ensures
        forall|c: i32| #[trigger] r@.contains(c) == family_has(program, j as int, c),
{
    let nd: u128 = program.sampled_categorical_distributions.len() as u128;
    let nr: u128 = program.sampled_rare_categorical_groups.len() as u128;
    let nb: u128 = program.sampled_bernoulli_conditions.len() as u128;
    if j < nd {
        copy_conditions(&program.sampled_categorical_distributions[j as usize].conditions)
    } else if j < nd + nr {
        joined(&program.sampled_rare_categorical_groups[(j - nd) as usize].conditions)
    } else if j < nd + nr + nb {
        let mut one: Vec<i32> = Vec::new();
        one.push(program.sampled_bernoulli_conditions[(j - nd - nr) as usize]);
        assert forall|c: i32| #[trigger] one@.contains(c) == family_has(program, j as int, c) by {
            if one@[0] == c {
                assert(one@.contains(c));
            }
        }
        one
    } else {
        let last: u128 = j - nd - nr - nb;
        let nl: usize = program.sampled_low_probability_bernoulli_groups.len();
        assert(last < nl);
        copy_conditions(&program.sampled_low_probability_bernoulli_groups[last as usize].conditions)
    }
}

/// The conditions of every list.
fn joined(sets: &Vec<Vec<i32>>) -> (r: Vec<i32>)
    ensures
        forall|c: i32| #[trigger] r@.contains(c) == sets_have(sets@, sets@.len() as int, c),
{
    let mut out: Vec<i32> = Vec::new();
    let mut k: usize = 0;
    while k < sets.len()
        invariant
            k <= sets@.len(),
            forall|c: i32| #[trigger] out@.contains(c) == sets_have(sets@, k as int, c),
        decreases sets@.len() - k,
    {
        let ghost held = out@;
        let mut more: Vec<i32> = copy_conditions(&sets[k]);
        let ghost added = more@;
        out.append(&mut more);
        proof {
            assert(out@ =~= held + added);
            assert forall|c: i32| #[trigger] out@.contains(c) == sets_have(sets@, k + 1, c) by {
                if held.contains(c) {
                    let q = choose|q: int| 0 <= q < held.len() && held[q] == c;
                    assert(out@[q] == c);
                    let s = choose|s: int| 0 <= s < k && (#[trigger] sets@[s])@.contains(c);
                    assert(sets@[s]@.contains(c));
                }
                if added.contains(c) {
                    let q = choose|q: int| 0 <= q < added.len() && added[q] == c;
                    assert(out@[held.len() + q] == c);
                    assert(sets@[k as int]@.contains(c));
                }
                if out@.contains(c) {
                    let q = choose|q: int| 0 <= q < out@.len() && out@[q] == c;
                    if q < held.len() {
                        assert(held[q] == c);
                    } else {
                        assert(added[q - held.len()] == c);
                    }
                }
                if sets_have(sets@, k + 1, c) {
                    let s = choose|s: int| 0 <= s < k + 1 && (#[trigger] sets@[s])@.contains(c);
                    if s < k {
                        assert(sets_have(sets@, k as int, c));
                    }
                }
            }
        }
        k += 1;
    }
    out
}

/// No condition is sampled by two families.
fn sampled_once(program: &FactoredInstructionProgram) -> (r: bool)
    ensures
        r == exogenous_disjoint(program),
{
    let total: u128 = program.sampled_categorical_distributions.len() as u128
        + program.sampled_rare_categorical_groups.len() as u128
        + program.sampled_bernoulli_conditions.len() as u128
        + program.sampled_low_probability_bernoulli_groups.len() as u128;
    let mut seen: HashSet<i32> = HashSet::new();
    let mut j: u128 = 0;
    while j < total
        invariant
            j <= total,
            total == family_count(program),
            forall|c: i32| #[trigger] seen@.contains(c) == sampled_below(program, j as int, c),
            forall|p: int, q: int, c: i32|
                0 <= p < q < j && #[trigger] family_has(program, p, c) ==> !#[trigger] family_has(
                    program,
                    q,
                    c,
                ),
        decreases total - j,
    {
        let list: Vec<i32> = family_conditions(program, j);
        if !none_seen(&seen, &list) {
            proof {
                let c = choose|c: i32| #[trigger] list@.contains(c) && seen@.contains(c);
                assert(family_has(program, j as int, c));
                let p = choose|p: int| 0 <= p < j && #[trigger] family_has(program, p, c);
                assert(family_has(program, p, c));
            }
            return false;
        }
        let ghost before = seen@;
        mark_seen(&mut seen, &list);
        proof {
            assert forall|c: i32| #[trigger] seen@.contains(c) == sampled_below(
                program,
                j + 1,
                c,
            ) by {
                assert(list@.contains(c) == family_has(program, j as int, c));
                if before.contains(c) {
                    let p = choose|p: int| 0 <= p < j && #[trigger] family_has(program, p, c);
                    assert(0 <= p < j + 1);
                }
            }
            assert forall|p: int, q: int, c: i32|
                0 <= p < q < j + 1 && #[trigger] family_has(
                    program,
                    p,
                    c,
                ) implies !#[trigger] family_has(program, q, c) by {
                if q == j {
                    assert(sampled_below(program, j as int, c));
                    assert(before.contains(c));
                    assert(list@.contains(c) == family_has(program, j as int, c));
                }
            }
        }
        j += 1;
    }
    true
}

// ---------------------------------------------------------------------------
// Sizes
// ---------------------------------------------------------------------------
/// Components of these widths fit beside one another, `pitch` shots each.
fn widths_fit(widths: &Vec<usize>, pitch: usize) -> (r: bool)
    requires
        pitch >= 1,
    ensures
        r == forall|j: int|
            0 <= j < widths@.len() ==> dimension(#[trigger] widths@[j] as int) * pitch <= usize::MAX,
{
    let mut j: usize = 0;
    while j < widths.len()
        invariant
            j <= widths@.len(),
            pitch >= 1,
            forall|q: int|
                0 <= q < j ==> dimension(#[trigger] widths@[q] as int) * pitch <= usize::MAX,
        decreases widths@.len() - j,
    {
        let fine: bool = match active_length(widths[j]) {
            Ok(dim) => product_fits(dim, pitch),
            Err(_) => {
                proof {
                    let d = dimension(widths@[j as int] as int);
                    assert(d * pitch >= d) by (nonlinear_arith)
                        requires
                            d >= 0,
                            pitch >= 1,
                    ;
                }
                false
            },
        };
        if !fine {
            assert(dimension(widths@[j as int] as int) * pitch > usize::MAX);
            return false;
        }
        j += 1;
    }
    true
}

/// The sizes of an executor of `batches` shots fit in memory.
fn sizes_fit(program: &FactoredInstructionProgram, batches: usize) -> (r: bool)
    ensures
        r == program_fits(program, batches as int),
{
    if batches > usize::MAX - 63 {
        return false;
    }
    let words: usize = symbol_word_count(batches);
    let pitch: usize = padded_batch_active_pitch(batches);
    if !product_fits(program.nsymbols, words) || !product_fits(program.nrecords, words)
        || !product_fits(program.ndetectors, words) || !product_fits(program.nexpvals, batches)
        || program.initial_k > program.n || program.initial_k > program.max_k {
        return false;
    }
    match active_length(program.max_k) {
        Ok(dim) => {
            if !product_fits(dim, pitch) {
                return false;
            }
        },
        Err(_) => {},
    }
    match &program.active_component_plan {
        Some(plan) => widths_fit(&plan.component_max_k, pitch),
        None => true,
    }
}

/// The program can be sampled in blocks of `batches` shots, `shots` at a time.
fn is_samplable(program: &FactoredInstructionProgram, shots: usize, batches: usize) -> (r: bool)
    requires
        batches > 0,
    ensures
        r == samplable(program, shots as int, batches as int),
{
    let components: bool = !program.use_active_components || match &program.active_component_plan {
        Some(parts) => components_in_form(parts, &program.instructions),
        None => false,
    };
    let initial: bool = match &program.active_component_plan {
        Some(plan) => plan.initial_components <= plan.component_max_k.len(),
        None => true,
    };
    if !program_in_form(program) || !components || !ids_in_range(program) || !initial
        || !sampled_positive(program) || !sampled_once(program) {
        return false;
    }
    if shots > 4294967295 || batches > usize::MAX - 2112 || shots > usize::MAX - 2112 - batches
        || program.nsymbols >= 2147483647 {
        return false;
    }
    let words: usize = symbol_word_count(shots);
    let table: bool = match program.nsymbols.checked_mul(words) {
        Some(size) => product_fits(size, 8),
        None => {
            proof {
                let size = program.nsymbols * words;
                assert(program.nsymbols * words_for_bits(shots as int) * 8 > usize::MAX);
            }
            false
        },
    };
    table && product_fits(program.instructions.len(), words) && sizes_fit(program, batches)
}

/// A program with this chunk and block size can be sampled.
pub fn is_preparable(program: &FactoredInstructionProgram, chunk: usize, batch: usize) -> (r: bool)
    ensures
        r == preparable(program, chunk as int, batch as int),
{
    if batch == 0 {
        return false;
    }
    is_samplable(program, chunk, batch) && is_samplable(program, 1, 1) && assigns_once(program)
        && program.nrecords < 2147483647 && product_fits(
        program.instructions.len(),
        symbol_word_count(batch),
    )
}

/// Whether [`Sampler::from_input`](crate::sampler::Sampler::from_input) takes the
/// input under these options.
pub fn can_prepare(input: &SamplingInput, options: &SamplerOptions) -> (r: bool)
    ensures
        r == (preparable(
            &input.program,
            chunk_size(options.sample_chunk_shots as int, batch_of(&input.program, *options)),
            batch_of(&input.program, *options),
        ) && input.observable_records@.len() == input.observable_includes
            && input.observable_records@.len() * words_for_bits(batch_of(&input.program, *options))
            <= usize::MAX),
{
    let batch: usize = if options.batch_size > 0 {
        options.batch_size
    } else {
        match default_batch_count(input.program.max_k) {
            Ok(count) => count,
            Err(_) => 1,
        }
    };
    proof {
        let d = dimension(input.program.max_k as int);
        if d > usize::MAX {
            assert(32768int / d == 0) by (nonlinear_arith)
                requires
                    d > 32768,
            ;
        }
    }
    let chunk: usize = sample_chunk_or_default(options.sample_chunk_shots, batch);
    is_preparable(&input.program, chunk, batch) && input.observable_records.len()
        == input.observable_includes && product_fits(
        input.observable_records.len(),
        symbol_word_count(batch),
    )
}

} // verus!
