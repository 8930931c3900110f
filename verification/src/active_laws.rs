//! What the instructions on the active state do to the amplitudes of one shot.
//!
//! Each shot is turned by its own sign, the value of the instruction's expression; a
//! part of a split state is treated as the whole state is, once its factors are merged.
use vstd::prelude::*;
use crate::amplitudes::{joints, mixes};
use crate::bits::word_bit;
use crate::driver::planned;
use crate::exogenous::ExogenousDraws;
use crate::kernels::{expectation_by, one_of, promoted, rotated_by, ActiveKernels};
use crate::model::{
    assign, coins, measure, merge, part_lanes, step, with_lanes, write_branch, Block, Part, Shot,
};
use crate::noise::noise_table;
use crate::presampled_expression::PresampledExpressionPlan;
use crate::program::{
    ActiveComponentStepKind, ApplyPrecomputedActivePauliRotation, FactoredInstruction,
    FactoredInstructionProgram, IntroduceDormantMeasurementBranch, MeasurePrecomputedActivePauli,
    PromoteDormantRotation, RecordMeasurement,
};
use crate::step_laws::{
    drawn_in_turn, law_dormant_branches_are_fair_coins, law_shots_are_measured_in_turn,
    law_signs_count_their_terms, measured_in_turn, odd_terms, truth,
};
use crate::symbolic::SymbolicBoolEvaluationPlan;

verus! {

/// The value of an expression for a shot.
pub open spec fn holds<A>(
    program: &FactoredInstructionProgram,
    draws: ExogenousDraws,
    shots: int,
    plan: SymbolicBoolEvaluationPlan,
    shot: Shot<A>,
) -> bool {
    odd_terms(plan.constant, plan.conditions@, truth(program, draws, shots, shot))
}

/// The block has one part, the whole active state, and the shots read drawn columns.
pub open spec fn is_whole<A>(b: Block<A>, shots: int) -> bool {
    &&& !b.split
    &&& b.parts.len() == 1
    &&& forall|s: int|
        0 <= s < b.shots.len() ==> 0 <= (#[trigger] b.shots[s]).sample < shots
            && b.shots[s].lanes.len() == 1
}

/// A rotation turns the amplitudes of every shot about its Pauli, by its angle, with the
/// sign that the shot's expression has, and changes nothing else.
pub proof fn law_a_rotation_turns_each_shot_by_its_sign<A, K: ActiveKernels<A>>(
    k: &K,
    program: &FactoredInstructionProgram,
    plan: PresampledExpressionPlan,
    draws: ExogenousDraws,
    shots: int,
    inst: ApplyPrecomputedActivePauliRotation,
    i: int,
    b: Block<A>,
    s: int,
)
    requires
        program.wf(),
        planned(program, plan),
        0 <= i < program.instructions@.len(),
        program.instructions@[i] == FactoredInstruction::ApplyPrecomputedActivePauliRotation(inst),
        is_whole(b, shots),
        0 <= s < b.shots.len(),
        step(k, noise_table(plan, program, draws, shots), plan, program, i, b) is Ok,
    ensures
        ({
            let after = step(k, noise_table(plan, program, draws, shots), plan, program, i, b)->Ok_0;
            let lane = b.shots[s].lanes[0];
            let kernel = inst.rotation_kernel;
            &&& kernel.action.nqubits == b.parts[0].k
            &&& after.shots[s] == (Shot { lanes: after.shots[s].lanes, ..b.shots[s] })
            &&& after.shots[s].lanes == seq![
                rotated_by(
                    k,
                    kernel.kernel_angle,
                    holds(program, draws, shots, inst.sign_plan, b.shots[s]),
                    mixes(kernel.action, lane.len() as int),
                    lane,
                ),
            ]
            &&& after.shots.len() == b.shots.len()
            &&& after == (Block { shots: after.shots, ..b })
        }),
{
    law_signs_count_their_terms(program, plan, draws, shots, i, b.shots[s]);
    let after = step(k, noise_table(plan, program, draws, shots), plan, program, i, b)->Ok_0;
    assert(b.shots[s].lanes.len() == 1);
    assert(after.parts =~= b.parts);
}

/// A promotion takes a dormant qubit into the amplitudes of every shot, turned by its
/// angle with the sign that the shot's expression has. One qubit more is active and one
/// less dormant; nothing else changes.
pub proof fn law_a_promotion_turns_each_shot_by_its_sign<A, K: ActiveKernels<A>>(
    k: &K,
    program: &FactoredInstructionProgram,
    plan: PresampledExpressionPlan,
    draws: ExogenousDraws,
    shots: int,
    inst: PromoteDormantRotation,
    i: int,
    b: Block<A>,
    s: int,
)
    requires
        program.wf(),
        planned(program, plan),
        0 <= i < program.instructions@.len(),
        program.instructions@[i] == FactoredInstruction::PromoteDormantRotation(inst),
        is_whole(b, shots),
        0 <= s < b.shots.len(),
        step(k, noise_table(plan, program, draws, shots), plan, program, i, b) is Ok,
    ensures
        ({
            let after = step(k, noise_table(plan, program, draws, shots), plan, program, i, b)->Ok_0;
            &&& b.ndormant != 0
            &&& after.shots[s] == (Shot { lanes: after.shots[s].lanes, ..b.shots[s] })
            &&& after.shots[s].lanes == seq![
                promoted(
                    k,
                    inst.kernel_angle,
                    holds(program, draws, shots, inst.sign_plan, b.shots[s]),
                    b.shots[s].lanes[0],
                ),
            ]
            &&& after.parts == seq![Part { k: b.parts[0].k + 1, ..b.parts[0] }]
            &&& after.shots.len() == b.shots.len()
            &&& after == (Block {
                k: b.k + 1,
                ndormant: b.ndormant - 1,
                parts: after.parts,
                shots: after.shots,
                ..b
            })
        }),
{
    law_signs_count_their_terms(program, plan, draws, shots, i, b.shots[s]);
    assert(b.shots[s].lanes.len() == 1);
    let after = step(k, noise_table(plan, program, draws, shots), plan, program, i, b)->Ok_0;
    assert(after.parts =~= seq![Part { k: b.parts[0].k + 1, ..b.parts[0] }]);
}

/// A probe of an active Pauli writes its expectation, negated where the outcome
/// expression is set, into its own slot and changes nothing else: it draws nothing and
/// leaves the amplitudes alone.
pub proof fn law_an_active_probe_only_reads<A, K: ActiveKernels<A>>(
    k: &K,
    program: &FactoredInstructionProgram,
    plan: PresampledExpressionPlan,
    draws: ExogenousDraws,
    shots: int,
    inst: MeasurePrecomputedActivePauli,
    i: int,
    b: Block<A>,
    s: int,
)
    requires
        program.wf(),
        planned(program, plan),
        0 <= i < program.instructions@.len(),
        program.instructions@[i] == FactoredInstruction::MeasurePrecomputedActivePauli(inst),
        inst.exp_val is Some,
        is_whole(b, shots),
        0 <= s < b.shots.len(),
        b.shots[s].exps.len() == b.nexpvals,
        step(k, noise_table(plan, program, draws, shots), plan, program, i, b) is Ok,
    ensures
        ({
            let after = step(k, noise_table(plan, program, draws, shots), plan, program, i, b)->Ok_0;
            let e = inst.exp_val->0 as int;
            let lane = b.shots[s].lanes[0];
            &&& 0 <= e < b.nexpvals
            &&& after.shots[s] == (Shot { exps: after.shots[s].exps, ..b.shots[s] })
            &&& after.shots[s].exps == b.shots[s].exps.update(
                e,
                expectation_by(
                    k,
                    joints(inst.kernel, true, lane.len() as int / 2),
                    holds(program, draws, shots, inst.outcome_plan, b.shots[s]),
                    lane,
                ),
            )
            &&& after.shots.len() == b.shots.len()
            &&& after == (Block { shots: after.shots, ..b })
        }),
{
    law_signs_count_their_terms(program, plan, draws, shots, i, b.shots[s]);
    assert(b.shots[s].lanes.len() == 1);
}

/// A probe whose outcome is fixed writes 1, or -1 where the outcome expression is set,
/// as the bits of a double; a probe of a dormant qubit writes 0. Neither changes
/// anything else.
pub proof fn law_fixed_probes_only_write<A, K: ActiveKernels<A>>(
    k: &K,
    program: &FactoredInstructionProgram,
    plan: PresampledExpressionPlan,
    draws: ExogenousDraws,
    shots: int,
    i: int,
    b: Block<A>,
    s: int,
)
    requires
        program.wf(),
        planned(program, plan),
        0 <= i < program.instructions@.len(),
        match program.instructions@[i] {
            FactoredInstruction::RecordMeasurement(inst) => inst.exp_val is Some,
            FactoredInstruction::IntroduceDormantMeasurementBranch(inst) => inst.exp_val is Some,
            _ => false,
        },
        is_whole(b, shots),
        0 <= s < b.shots.len(),
        b.shots[s].exps.len() == b.nexpvals,
        step(k, noise_table(plan, program, draws, shots), plan, program, i, b) is Ok,
    ensures
        ({
            let after = step(k, noise_table(plan, program, draws, shots), plan, program, i, b)->Ok_0;
            let (e, value) = match program.instructions@[i] {
                FactoredInstruction::RecordMeasurement(inst) => (
                    inst.exp_val->0 as int,
                    if holds(program, draws, shots, inst.outcome_plan, b.shots[s]) {
                        0xbff0_0000_0000_0000u64
                    } else {
                        0x3ff0_0000_0000_0000u64
                    },
                ),
                FactoredInstruction::IntroduceDormantMeasurementBranch(inst) => (
                    inst.exp_val->0 as int,
                    0u64,
                ),
                _ => (0, 0u64),
            };
            &&& 0 <= e < b.nexpvals
            &&& after.shots[s] == (Shot { exps: after.shots[s].exps, ..b.shots[s] })
            &&& after.shots[s].exps == b.shots[s].exps.update(e, value)
            &&& after.shots.len() == b.shots.len()
            &&& after == (Block { shots: after.shots, ..b })
        }),
{
    law_signs_count_their_terms(program, plan, draws, shots, i, b.shots[s]);
}

/// The values of a symbol, shot by shot.
pub open spec fn symbol_values<A>(b: Block<A>, c: i32) -> Seq<bool> {
    Seq::new(b.shots.len(), |s: int| b.shots[s].values[c])
}

/// What writing a record leaves alone.
proof fn lemma_written_rest<A>(
    base: spec_fn(int, int) -> bool,
    plan: PresampledExpressionPlan,
    i: int,
    b: Block<A>,
    branches: Seq<bool>,
    branch: i32,
    outcome_plan: SymbolicBoolEvaluationPlan,
    record: Option<i32>,
    condition: Option<i32>,
    s: int,
)
    requires
        0 <= s < b.shots.len(),
        b.known.contains(branch),
        write_branch(base, plan, i, b, branches, branch, outcome_plan, record, condition) is Ok,
    ensures
        ({
            let after = write_branch(
                base,
                plan,
                i,
                b,
                branches,
                branch,
                outcome_plan,
                record,
                condition,
            )->Ok_0;
            &&& after.shots.len() == b.shots.len()
            &&& after.rng == b.rng
            &&& after.k == b.k
            &&& after.ndormant == b.ndormant
            &&& after.parts == b.parts
            &&& after.shots[s].lanes == b.shots[s].lanes
            &&& after.shots[s].exps == b.shots[s].exps
            &&& after.shots[s].sample == b.shots[s].sample
            &&& after.shots[s].detectors == b.shots[s].detectors
            &&& after.shots[s].fired == b.shots[s].fired
            &&& after.shots[s].values[branch] == b.shots[s].values[branch]
        }),
{
}

/// A measurement of the whole active state measures its Pauli shot after shot, and the
/// branch symbol of every shot holds the branch that was drawn for it.
pub proof fn law_a_measurement_assigns_its_branches<A, K: ActiveKernels<A>>(
    k: &K,
    base: spec_fn(int, int) -> bool,
    plan: PresampledExpressionPlan,
    program: &FactoredInstructionProgram,
    inst: MeasurePrecomputedActivePauli,
    shots: int,
    i: int,
    b: Block<A>,
) -> (states: Seq<u64>)
    requires
        0 <= i < program.instructions@.len(),
        program.instructions@[i] == FactoredInstruction::MeasurePrecomputedActivePauli(inst),
        inst.exp_val is None,
        is_whole(b, shots),
        step(k, base, plan, program, i, b) is Ok,
    ensures
        ({
            let after = step(k, base, plan, program, i, b)->Ok_0;
            &&& after.shots.len() == b.shots.len()
            &&& measured_in_turn(
                k,
                inst.kernel,
                part_lanes(b, 0),
                states,
                symbol_values(after, inst.branch),
                part_lanes(after, 0),
            )
            &&& states[0] == b.rng
            &&& states[b.shots.len() as int] == after.rng
            &&& after.k == b.k - 1
            &&& after.ndormant == b.ndormant + 1
            &&& after.parts[0].k == b.parts[0].k - 1
        }),
{
    assert forall|s: int| 0 <= s < b.shots.len() implies (#[trigger] b.shots[s]).lanes.len()
        == b.parts.len() by {}
    let states = law_shots_are_measured_in_turn(k, b, 0, inst.kernel);
    let (m, branches) = measure(k, b, 0, inst.kernel)->Ok_0;
    let assigned = assign(m, inst.branch, branches)->Ok_0;
    let after = step(k, base, plan, program, i, b)->Ok_0;
    assert(assigned.known.contains(inst.branch));
    assert forall|s: int| 0 <= s < b.shots.len() implies {
        &&& after.shots.len() == b.shots.len()
        &&& #[trigger] after.shots[s].values[inst.branch] == branches[s]
        &&& after.shots[s].lanes == m.shots[s].lanes
    } by {
        assert(m.known.contains(inst.branch) ==> m.shots[s].values[inst.branch] == branches[s]);
        lemma_written_rest(
            base,
            plan,
            i,
            assigned,
            branches,
            inst.branch,
            inst.outcome_plan,
            inst.record,
            inst.record_condition,
            s,
        );
    }
    assert(symbol_values(after, inst.branch) =~= branches);
    assert(part_lanes(after, 0) =~= part_lanes(m, 0));
    states
}

/// A measurement of a dormant qubit tosses a fair coin for every shot, and the branch
/// symbol of the shot holds it. The amplitudes are left alone.
pub proof fn law_a_dormant_measurement_tosses_coins<A, K: ActiveKernels<A>>(
    k: &K,
    base: spec_fn(int, int) -> bool,
    plan: PresampledExpressionPlan,
    program: &FactoredInstructionProgram,
    inst: IntroduceDormantMeasurementBranch,
    i: int,
    b: Block<A>,
) -> (r: (Seq<u64>, Seq<u64>))
    requires
        0 <= i < program.instructions@.len(),
        program.instructions@[i] == FactoredInstruction::IntroduceDormantMeasurementBranch(inst),
        inst.exp_val is None,
        !b.split,
        step(k, base, plan, program, i, b) is Ok,
    ensures
        ({
            let (states, words) = r;
            let after = step(k, base, plan, program, i, b)->Ok_0;
            &&& after.shots.len() == b.shots.len()
            &&& drawn_in_turn::<A, K>(k, states, words)
            &&& states[0] == b.rng
            &&& states[words.len() as int] == after.rng
            &&& b.shots.len() <= 64 * words.len() < b.shots.len() + 64
            &&& forall|s: int|
                0 <= s < b.shots.len() ==> (#[trigger] after.shots[s]).values[inst.branch]
                    == word_bit(words[s / 64], s % 64) && after.shots[s].lanes == b.shots[s].lanes
        }),
{
    let (states, words) = law_dormant_branches_are_fair_coins(k, b);
    let (next, bits) = coins(k, b);
    let moved = Block { rng: next, ..b };
    let assigned = assign(moved, inst.branch, bits)->Ok_0;
    let after = step(k, base, plan, program, i, b)->Ok_0;
    assert(after.rng == next && after.shots.len() == b.shots.len());
    assert forall|s: int| 0 <= s < b.shots.len() implies (#[trigger] after.shots[s]).values[inst.branch]
        == word_bit(words[s / 64], s % 64) && after.shots[s].lanes == b.shots[s].lanes by {
        assert(bits[s] == word_bit(words[s / 64], s % 64));
        assert(moved.known.contains(inst.branch) ==> moved.shots[s].values[inst.branch] == bits[s]);
        lemma_written_rest(
            base,
            plan,
            i,
            assigned,
            bits,
            inst.branch,
            inst.outcome_plan,
            inst.record,
            inst.record_condition,
            s,
        );
    }
    (states, words)
}

// ---------------------------------------------------------------------------
// Split states
// ---------------------------------------------------------------------------
/// A rotation of a split state merges the parts that it spans and turns the part that
/// they have become, with the sign that the shot's expression has. The other parts keep
/// what the merge left them.
pub proof fn law_a_part_is_rotated_as_the_whole<A, K: ActiveKernels<A>>(
    k: &K,
    program: &FactoredInstructionProgram,
    plan: PresampledExpressionPlan,
    draws: ExogenousDraws,
    shots: int,
    inst: ApplyPrecomputedActivePauliRotation,
    i: int,
    b: Block<A>,
    s: int,
)
    requires
        program.wf(),
        planned(program, plan),
        0 <= i < program.instructions@.len(),
        program.instructions@[i] == FactoredInstruction::ApplyPrecomputedActivePauliRotation(inst),
        b.split,
        (program.active_component_plan->0).instruction_steps@[i].kind
            == ActiveComponentStepKind::Rotation,
        0 <= s < b.shots.len(),
        0 <= b.shots[s].sample < shots,
        forall|t: int| 0 <= t < b.shots.len() ==> (#[trigger] b.shots[t]).lanes.len() == b.parts.len(),
        step(k, noise_table(plan, program, draws, shots), plan, program, i, b) is Ok,
    ensures
        ({
            let parts = program.active_component_plan->0;
            let turn = parts.rotations@[parts.instruction_steps@[i].payload as int];
            let at = turn.component as int;
            let after = step(k, noise_table(plan, program, draws, shots), plan, program, i, b)->Ok_0;
            let merged = merge(
                k,
                b,
                parts.merge_components@,
                turn.merge_offset as int,
                turn.merge_count as int,
                at,
            );
            &&& merged is Ok
            &&& turn.kernel.action.nqubits == merged->Ok_0.parts[at].k
            &&& after.shots[s].lanes == merged->Ok_0.shots[s].lanes.update(
                at,
                rotated_by(
                    k,
                    turn.kernel.kernel_angle,
                    holds(program, draws, shots, inst.sign_plan, b.shots[s]),
                    mixes(turn.kernel.action, merged->Ok_0.shots[s].lanes[at].len() as int),
                    merged->Ok_0.shots[s].lanes[at],
                ),
            )
            &&& after.parts =~= merged->Ok_0.parts
        }),
{
    law_signs_count_their_terms(program, plan, draws, shots, i, b.shots[s]);
    let parts = program.active_component_plan->0;
    let turn = parts.rotations@[parts.instruction_steps@[i].payload as int];
    let at = turn.component as int;
    crate::step_laws::lemma_merge_keeps(
        k,
        b,
        parts.merge_components@,
        turn.merge_offset as int,
        turn.merge_count as int,
        at,
    );
    crate::step_laws::lemma_merge_lanes(
        k,
        b,
        parts.merge_components@,
        at,
        turn.merge_offset + 1,
        turn.merge_offset + turn.merge_count,
    );
    let merged = merge(
        k,
        b,
        parts.merge_components@,
        turn.merge_offset as int,
        turn.merge_count as int,
        at,
    )->Ok_0;
    assert(merged.shots.len() == b.shots.len());
    assert(merged.parts.update(at, merged.parts[at]) =~= merged.parts);
}

/// A promotion of a split state switches its part on with one qubit: the state 1 turned
/// by the angle, with the sign that the shot's expression has.
pub proof fn law_a_part_is_promoted_from_one<A, K: ActiveKernels<A>>(
    k: &K,
    program: &FactoredInstructionProgram,
    plan: PresampledExpressionPlan,
    draws: ExogenousDraws,
    shots: int,
    inst: PromoteDormantRotation,
    i: int,
    b: Block<A>,
    s: int,
)
    requires
        program.wf(),
        planned(program, plan),
        0 <= i < program.instructions@.len(),
        program.instructions@[i] == FactoredInstruction::PromoteDormantRotation(inst),
        b.split,
        (program.active_component_plan->0).instruction_steps@[i].kind
            == ActiveComponentStepKind::Promotion,
        0 <= s < b.shots.len(),
        0 <= b.shots[s].sample < shots,
        b.shots[s].lanes.len() == b.parts.len(),
        step(k, noise_table(plan, program, draws, shots), plan, program, i, b) is Ok,
    ensures
        ({
            let parts = program.active_component_plan->0;
            let at = parts.promotions@[parts.instruction_steps@[i].payload as int].component as int;
            let after = step(k, noise_table(plan, program, draws, shots), plan, program, i, b)->Ok_0;
            &&& at < b.parts.len()
            &&& !b.parts[at].active
            &&& after.parts[at].active && after.parts[at].k == 1
            &&& after.k == b.k + 1
            &&& after.ndormant == b.ndormant - 1
            &&& after.shots[s].lanes == b.shots[s].lanes.update(
                at,
                promoted(
                    k,
                    inst.kernel_angle,
                    holds(program, draws, shots, inst.sign_plan, b.shots[s]),
                    seq![one_of::<A, K>(k)],
                ),
            )
        }),
{
    law_signs_count_their_terms(program, plan, draws, shots, i, b.shots[s]);
}

/// A measurement of a split state merges the parts that it spans and measures the part
/// that they have become, shot after shot; the branch symbol of every shot holds the
/// branch that was drawn for it. A part that loses its last qubit is switched off.
pub proof fn law_a_part_is_measured_as_the_whole<A, K: ActiveKernels<A>>(
    k: &K,
    base: spec_fn(int, int) -> bool,
    plan: PresampledExpressionPlan,
    program: &FactoredInstructionProgram,
    inst: MeasurePrecomputedActivePauli,
    i: int,
    b: Block<A>,
) -> (states: Seq<u64>)
    requires
        0 <= i < program.instructions@.len(),
        program.instructions@[i] == FactoredInstruction::MeasurePrecomputedActivePauli(inst),
        b.split,
        (program.active_component_plan->0).instruction_steps@[i].kind
            == ActiveComponentStepKind::Measurement,
        forall|s: int| 0 <= s < b.shots.len() ==> (#[trigger] b.shots[s]).lanes.len() == b.parts.len(),
        step(k, base, plan, program, i, b) is Ok,
    ensures
        ({
            let parts = program.active_component_plan->0;
            let m = parts.measurements@[parts.instruction_steps@[i].payload as int];
            let at = m.component as int;
            let after = step(k, base, plan, program, i, b)->Ok_0;
            let merged = merge(
                k,
                b,
                parts.merge_components@,
                m.merge_offset as int,
                m.merge_count as int,
                at,
            );
            &&& merged is Ok
            &&& after.shots.len() == b.shots.len()
            &&& exists|outs: Seq<Seq<A>>| #[trigger]
                measured_in_turn(
                    k,
                    m.kernel,
                    part_lanes(merged->Ok_0, at),
                    states,
                    symbol_values(after, inst.branch),
                    outs,
                ) && (!m.deactivate_after ==> outs == part_lanes(after, at))
            &&& states[0] == b.rng
            &&& states[b.shots.len() as int] == after.rng
            &&& after.k == b.k - 1
            &&& after.ndormant == b.ndormant + 1
            &&& after.parts[at].k == merged->Ok_0.parts[at].k - 1
            &&& m.deactivate_after ==> after.parts[at].k == 0 && !after.parts[at].active
        }),
{
    let parts = program.active_component_plan->0;
    let m = parts.measurements@[parts.instruction_steps@[i].payload as int];
    let at = m.component as int;
    let list = parts.merge_components@;
    crate::step_laws::lemma_merge_keeps(
        k,
        b,
        list,
        m.merge_offset as int,
        m.merge_count as int,
        at,
    );
    crate::step_laws::lemma_merge_lanes(
        k,
        b,
        list,
        at,
        m.merge_offset + 1,
        m.merge_offset + m.merge_count,
    );
    let merged = merge(k, b, list, m.merge_offset as int, m.merge_count as int, at)->Ok_0;
    let states = law_shots_are_measured_in_turn(k, merged, at, m.kernel);
    let (narrow, branches) = measure(k, merged, at, m.kernel)->Ok_0;
    let assigned = assign(narrow, inst.branch, branches)->Ok_0;
    let left = if m.deactivate_after {
        with_lanes(
            assigned,
            at,
            Part { active: false, ..assigned.parts[at] },
            Seq::new(assigned.shots.len(), |s: int| Seq::empty()),
        )
    } else {
        assigned
    };
    let after = step(k, base, plan, program, i, b)->Ok_0;
    assert(left.known.contains(inst.branch));
    assert(after.rng == left.rng && after.k == left.k && after.ndormant == left.ndormant && after.parts
        == left.parts && after.shots.len() == left.shots.len());
    assert forall|s: int| 0 <= s < b.shots.len() implies {
        &&& #[trigger] after.shots[s].values[inst.branch] == branches[s]
        &&& !m.deactivate_after ==> after.shots[s].lanes == narrow.shots[s].lanes
    } by {
        assert(narrow.known.contains(inst.branch) ==> narrow.shots[s].values[inst.branch]
            == branches[s]);
        lemma_written_rest(
            base,
            plan,
            i,
            left,
            branches,
            inst.branch,
            inst.outcome_plan,
            inst.record,
            inst.record_condition,
            s,
        );
    }
    assert(symbol_values(after, inst.branch) =~= branches);
    let outs = part_lanes(narrow, at);
    assert(!m.deactivate_after ==> outs =~= part_lanes(after, at));
    assert(measured_in_turn(
        k,
        m.kernel,
        part_lanes(merged, at),
        states,
        symbol_values(after, inst.branch),
        outs,
    ));
    states
}

} // verus!
