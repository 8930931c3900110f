//! What the instructions of a planned program mean for one shot.
//!
//! An expression is true where an odd number of its terms is, the constant among them.
//! Signs, records, symbols, detectors and expectation values are stated here by those
//! counts, over the noise that was drawn and the symbols that the shot holds.
use vstd::prelude::*;
use crate::amplitudes::joints;
use crate::bits::word_bit;
use crate::driver::planned;
use crate::exogenous::{is_exogenous, marks, ExogenousDraws};
use crate::kernels::{measured_by, random_of, ActiveKernels};
use crate::lanes::measured_lanes;
use crate::model::{
    assign, coin_words, coins, detector_at, detector_outcomes, is_direct, measure, measure_branch,
    merge, merge_from, merge_one, part_lanes, records_exist, records_parity, shot_values, sign_at,
    sign_refusal, signs, step, step_whole, with_lanes, write_branch, write_measurement, Block,
    Part, Shot,
};
use crate::noise::{noise_bit, noise_table, noise_valuation};
use crate::postselect_model::{accepted, discards_at, expected_at, select_step};
use crate::presampled_expression::{
    bulk_plan, expresses, lemma_selected, plans_program, same_partial, PresampledExpressionPlan,
};
use crate::program::{
    ActiveComponentStepKind, FactoredInstruction, FactoredInstructionProgram, MeasurementKernel,
    RecordDetector,
};
use crate::symbolic::{lemma_xor_of_ext, xor_of, SymbolicBool, SymbolicBoolEvaluationPlan};
use crate::symbols::lemma_plan_refusal;

verus! {

// ---------------------------------------------------------------------------
// Counting
// ---------------------------------------------------------------------------
/// Whether an odd number of the entries is true under `v`.
pub open spec fn odd_among(list: Seq<i32>, v: spec_fn(i32) -> bool) -> bool {
    list.filter(v).len() % 2 == 1
}

/// Whether an odd number of the terms is true: the listed symbols and the constant.
pub open spec fn odd_terms(constant: bool, list: Seq<i32>, v: spec_fn(i32) -> bool) -> bool {
    (list.filter(v).len() + if constant {
        1int
    } else {
        0
    }) % 2 == 1
}

/// The XOR of a list of symbols is true exactly where an odd number of them is.
pub proof fn law_xor_counts_its_terms(list: Seq<i32>, v: spec_fn(i32) -> bool)
    ensures
        xor_of(list, v) == odd_among(list, v),
    decreases list.len(),
{
    reveal(Seq::filter);
    if list.len() > 0 {
        law_xor_counts_its_terms(list.drop_last(), v);
    }
}

/// An expression, and the plan that evaluates it, is true exactly where an odd number of
/// its terms is, the constant among them.
pub proof fn law_expressions_count_their_terms(
    e: SymbolicBool,
    p: SymbolicBoolEvaluationPlan,
    v: spec_fn(i32) -> bool,
)
    ensures
        e.value(v) == odd_terms(e.constant, e.conditions@, v),
        p.value(v) == odd_terms(p.constant, p.conditions@, v),
{
    law_xor_counts_its_terms(e.conditions@, v);
    law_xor_counts_its_terms(p.conditions@, v);
}

// ---------------------------------------------------------------------------
// Signs
// ---------------------------------------------------------------------------
/// The value of every symbol for a shot: what was drawn for it, or what the shot holds.
pub open spec fn truth<A>(
    program: &FactoredInstructionProgram,
    draws: ExogenousDraws,
    shots: int,
    shot: Shot<A>,
) -> spec_fn(i32) -> bool {
    |c: i32|
        if is_exogenous(program, c) {
            noise_bit(program, draws, shots, c, shot.sample)
        } else {
            shot.values.contains_key(c) && shot.values[c]
        }
}

/// The sign or outcome that an instruction reads is true exactly where an odd number of
/// the terms of its own expression is, over the drawn noise and the shot's symbols.
pub proof fn law_signs_count_their_terms<A>(
    program: &FactoredInstructionProgram,
    plan: PresampledExpressionPlan,
    draws: ExogenousDraws,
    shots: int,
    i: int,
    shot: Shot<A>,
)
    requires
        program.wf(),
        planned(program, plan),
        0 <= i < program.instructions@.len(),
        0 <= shot.sample < shots,
        bulk_plan(program.instructions@[i]) is Some,
    ensures
        ({
            let source = bulk_plan(program.instructions@[i])->0;
            sign_at(noise_table(plan, program, draws, shots), plan, i, shot) == odd_terms(
                source.constant,
                source.conditions@,
                truth(program, draws, shots, shot),
            )
        }),
{
    let words = choose|words: Seq<u64>| #[trigger]
        plans_program(plan, program, words) && marks(words, |c: i32| is_exogenous(program, c));
    let source = bulk_plan(program.instructions@[i])->0;
    let expression = plan.instruction_expressions@[i];
    let v = truth(program, draws, shots, shot);
    let t = shot.sample;
    assert(program.instructions@[i].wf());
    assert(expresses(expression, program.instructions@[i], words));
    assert(same_partial(
        plan.block_expressions@[expression.block_expression_index as int],
        expression,
    ));
    crate::presampled_expression::law_split_keeps_the_value(expression, source, words, v);
    lemma_selected(source.conditions@, words, true);
    lemma_selected(source.conditions@, words, false);
    let exo = expression.exogenous_conditions@;
    let rest = expression.residual_plan.conditions@;
    assert forall|q: int| 0 <= q < exo.len() implies v(#[trigger] exo[q]) == noise_valuation(
        program,
        draws,
        shots,
        t,
    )(exo[q]) by {
        assert(exo.contains(exo[q]));
    }
    lemma_xor_of_ext(exo, v, noise_valuation(program, draws, shots, t));
    assert forall|q: int| 0 <= q < rest.len() implies v(#[trigger] rest[q]) == shot_values(shot)(
        rest[q],
    ) by {
        assert(rest.contains(rest[q]));
    }
    lemma_xor_of_ext(rest, v, shot_values(shot));
    law_xor_counts_its_terms(source.conditions@, v);
}

/// Every shot holds exactly the known symbols, and has a record for each declared one.
pub open spec fn consistent<A>(b: Block<A>, shots: int) -> bool {
    &&& forall|c: i32| #[trigger] b.known.contains(c) ==> 0 < c <= b.nsymbols
    &&& forall|s: int|
        0 <= s < b.shots.len() ==> {
            &&& 0 <= (#[trigger] b.shots[s]).sample < shots
            &&& b.shots[s].values.dom() == b.known
            &&& b.shots[s].records.len() == b.nrecords
        }
}

/// The outcome expression of an instruction that writes a record.
pub open spec fn written_outcome(ins: FactoredInstruction) -> Option<SymbolicBool> {
    match ins {
        FactoredInstruction::RecordMeasurement(inst) => if inst.exp_val is None {
            Some(inst.outcome)
        } else {
            None
        },
        FactoredInstruction::MeasurePrecomputedActivePauli(inst) => if inst.exp_val is None {
            Some(inst.outcome)
        } else {
            None
        },
        FactoredInstruction::IntroduceDormantMeasurementBranch(inst) => if inst.exp_val is None {
            Some(inst.outcome)
        } else {
            None
        },
        _ => None,
    }
}

/// The record that the instruction names.
pub open spec fn named_record(ins: FactoredInstruction) -> Option<i32> {
    match ins {
        FactoredInstruction::RecordMeasurement(inst) => inst.record,
        FactoredInstruction::MeasurePrecomputedActivePauli(inst) => inst.record,
        FactoredInstruction::IntroduceDormantMeasurementBranch(inst) => inst.record,
        _ => None,
    }
}

/// The symbol that takes the recorded value.
pub open spec fn named_condition(ins: FactoredInstruction) -> Option<i32> {
    match ins {
        FactoredInstruction::RecordMeasurement(inst) => inst.record_condition,
        FactoredInstruction::MeasurePrecomputedActivePauli(inst) => inst.record_condition,
        FactoredInstruction::IntroduceDormantMeasurementBranch(inst) => inst.record_condition,
        _ => None,
    }
}

/// The written record and symbol hold the bit; the other records are as before.
pub open spec fn records_bit<A>(
    before: Shot<A>,
    after: Shot<A>,
    record: Option<i32>,
    condition: Option<i32>,
    bit: bool,
) -> bool {
    &&& match record {
        Some(id) => {
            &&& 0 < id <= after.records.len()
            &&& after.records[id - 1] == bit
            &&& forall|q: int|
                0 <= q < before.records.len() && q != id - 1 ==> #[trigger] after.records[q]
                    == before.records[q]
        },
        None => after.records == before.records,
    }
    &&& match condition {
        Some(c) => after.values.contains_key(c) && after.values[c] == bit,
        None => true,
    }
}

proof fn lemma_write_measurement<A>(
    b: Block<A>,
    record: Option<i32>,
    bits: Seq<bool>,
    condition: Option<i32>,
    shots: int,
    s: int,
)
    requires
        consistent(b, shots),
        bits.len() == b.shots.len(),
        0 <= s < b.shots.len(),
        write_measurement(b, record, bits, condition) is Ok,
    ensures
        ({
            let after = write_measurement(b, record, bits, condition)->Ok_0;
            &&& after.shots.len() == b.shots.len()
            &&& records_bit(b.shots[s], after.shots[s], record, condition, bits[s])
            &&& after.shots[s].sample == b.shots[s].sample
            &&& forall|c: i32| #[trigger]
                b.known.contains(c) ==> after.shots[s].values.contains_key(c)
                    && after.shots[s].values[c] == b.shots[s].values[c]
            &&& after.shots[s].lanes == b.shots[s].lanes
            &&& after.shots[s].detectors == b.shots[s].detectors
            &&& after.shots[s].fired == b.shots[s].fired
            &&& after.shots[s].exps == b.shots[s].exps
            &&& after.rng == b.rng
        }),
{
    let written = match record {
        Some(id) => crate::model::with_records(b, id as int, bits),
        None => b,
    };
    assert(b.shots[s].values.dom() == b.known);
    assert(written.shots[s].values == b.shots[s].values);
    assert(b.shots[s].records.len() == b.nrecords);
    match condition {
        Some(c) => {
            let after = assign(written, c, bits)->Ok_0;
            if written.known.contains(c) {
                assert(written.shots[s].values[c] == bits[s]);
                assert(b.shots[s].values.dom().contains(c));
            }
        },
        None => {},
    }
}

/// Symbols that are known keep their values, so an expression over them keeps its own.
proof fn lemma_same_terms<A>(
    program: &FactoredInstructionProgram,
    draws: ExogenousDraws,
    shots: int,
    list: Seq<i32>,
    a: Shot<A>,
    b: Shot<A>,
)
    requires
        a.sample == b.sample,
        forall|q: int|
            0 <= q < list.len() && !is_exogenous(program, #[trigger] list[q])
                ==> a.values.contains_key(list[q]) && b.values.contains_key(list[q])
                && a.values[list[q]] == b.values[list[q]],
    ensures
        odd_among(list, truth(program, draws, shots, a)) == odd_among(
            list,
            truth(program, draws, shots, b),
        ),
{
    law_xor_counts_its_terms(list, truth(program, draws, shots, a));
    law_xor_counts_its_terms(list, truth(program, draws, shots, b));
    lemma_xor_of_ext(list, truth(program, draws, shots, a), truth(program, draws, shots, b));
}

/// The symbols that an evaluated expression reads beside the noise are known.
proof fn lemma_residual_known<A>(
    program: &FactoredInstructionProgram,
    plan: PresampledExpressionPlan,
    shots: int,
    i: int,
    b: Block<A>,
    q: int,
)
    requires
        program.wf(),
        planned(program, plan),
        0 <= i < program.instructions@.len(),
        consistent(b, shots),
        sign_refusal(plan, i, b) is None,
        bulk_plan(program.instructions@[i]) is Some,
        0 <= q < (bulk_plan(program.instructions@[i])->0).conditions@.len(),
        !is_exogenous(program, (bulk_plan(program.instructions@[i])->0).conditions@[q]),
    ensures
        b.known.contains((bulk_plan(program.instructions@[i])->0).conditions@[q]),
{
    let words = choose|words: Seq<u64>| #[trigger]
        plans_program(plan, program, words) && marks(words, |c: i32| is_exogenous(program, c));
    let source = bulk_plan(program.instructions@[i])->0;
    let expression = plan.instruction_expressions@[i];
    assert(program.instructions@[i].wf());
    assert(expresses(expression, program.instructions@[i], words));
    lemma_selected(source.conditions@, words, false);
    lemma_plan_refusal(b.nsymbols, b.known, expression.residual_plan);
    let rest = expression.residual_plan.conditions@;
    let c = source.conditions@[q];
    assert(source.conditions@.contains(c));
    assert(c > 0);
    assert(rest.contains(c));
    let at = rest.index_of(c);
    assert(b.known.contains(rest[at]));
}

proof fn lemma_write_branch<A>(
    program: &FactoredInstructionProgram,
    plan: PresampledExpressionPlan,
    draws: ExogenousDraws,
    shots: int,
    i: int,
    b: Block<A>,
    branches: Seq<bool>,
    branch: i32,
    s: int,
)
    requires
        program.wf(),
        planned(program, plan),
        0 <= i < program.instructions@.len(),
        consistent(b, shots),
        branches.len() == b.shots.len(),
        0 <= s < b.shots.len(),
        written_outcome(program.instructions@[i]) is Some,
        !is_exogenous(program, branch),
        b.known.contains(branch),
        b.shots[s].values[branch] == branches[s],
        bulk_plan(program.instructions@[i]) is Some,
        write_branch(
            noise_table(plan, program, draws, shots),
            plan,
            i,
            b,
            branches,
            branch,
            bulk_plan(program.instructions@[i])->0,
            named_record(program.instructions@[i]),
            named_condition(program.instructions@[i]),
        ) is Ok,
    ensures
        ({
            let ins = program.instructions@[i];
            let outcome = written_outcome(ins)->0;
            let after = write_branch(
                noise_table(plan, program, draws, shots),
                plan,
                i,
                b,
                branches,
                branch,
                bulk_plan(ins)->0,
                named_record(ins),
                named_condition(ins),
            )->Ok_0;
            &&& after.shots.len() == b.shots.len()
            &&& after.shots[s].lanes == b.shots[s].lanes
            &&& after.shots[s].detectors == b.shots[s].detectors
            &&& after.shots[s].fired == b.shots[s].fired
            &&& after.shots[s].exps == b.shots[s].exps
            &&& after.shots[s].values.contains_key(branch)
            &&& after.shots[s].values[branch] == branches[s]
            &&& after.rng == b.rng
            &&& records_bit(
                b.shots[s],
                after.shots[s],
                named_record(ins),
                named_condition(ins),
                odd_terms(
                    outcome.constant,
                    outcome.conditions@,
                    truth(program, draws, shots, after.shots[s]),
                ),
            )
        }),
{
    let ins = program.instructions@[i];
    assert(ins.wf());
    let outcome = written_outcome(ins)->0;
    let source = bulk_plan(ins)->0;
    let base = noise_table(plan, program, draws, shots);
    let record = named_record(ins);
    let condition = named_condition(ins);
    let after = write_branch(base, plan, i, b, branches, branch, source, record, condition)->Ok_0;
    assert(source.conditions@ == outcome.conditions@);
    assert(b.shots[s].values.dom() == b.known);
    if is_direct(source, branch) {
        let bits = Seq::new(b.shots.len(), |s: int| branches[s] != source.constant);
        lemma_write_measurement(b, record, bits, condition, shots, s);
        let v = truth(program, draws, shots, after.shots[s]);
        assert(v(branch) == branches[s]);
        assert(source.conditions@ =~= seq![branch]);
        reveal_with_fuel(xor_of, 2);
        assert(source.conditions@.drop_last() =~= Seq::<i32>::empty());
        law_xor_counts_its_terms(source.conditions@, v);
    } else {
        let bits = signs(base, plan, i, b);
        lemma_write_measurement(b, record, bits, condition, shots, s);
        law_signs_count_their_terms(program, plan, draws, shots, i, b.shots[s]);
        assert forall|q: int|
            0 <= q < source.conditions@.len() && !is_exogenous(
                program,
                #[trigger] source.conditions@[q],
            ) implies b.shots[s].values.contains_key(source.conditions@[q])
            && after.shots[s].values.contains_key(source.conditions@[q])
            && b.shots[s].values[source.conditions@[q]]
            == after.shots[s].values[source.conditions@[q]] by {
            lemma_residual_known(program, plan, shots, i, b, q);
        }
        lemma_same_terms(
            program,
            draws,
            shots,
            source.conditions@,
            b.shots[s],
            after.shots[s],
        );
    }
}

proof fn lemma_assigned<A>(b: Block<A>, c: i32, bits: Seq<bool>, shots: int, s: int)
    requires
        consistent(b, shots),
        assign(b, c, bits) is Ok,
        0 <= s < b.shots.len(),
    ensures
        consistent(assign(b, c, bits)->Ok_0, shots),
        ({
            let after = assign(b, c, bits)->Ok_0;
            &&& after.shots.len() == b.shots.len()
            &&& after.known.contains(c)
            &&& after.shots[s] == (Shot { values: after.shots[s].values, ..b.shots[s] })
            &&& after.shots[s].values[c] == bits[s]
            &&& after == (Block { known: after.known, shots: after.shots, ..b })
            &&& forall|x: i32| #[trigger]
                b.known.contains(x) ==> after.known.contains(x) && after.shots[s].values[x]
                    == b.shots[s].values[x]
        }),
{
    let after = assign(b, c, bits)->Ok_0;
    if b.known.contains(c) {
        assert(b.shots[s].values[c] == bits[s]);
    } else {
        assert forall|t: int| 0 <= t < after.shots.len() implies {
            &&& 0 <= (#[trigger] after.shots[t]).sample < shots
            &&& after.shots[t].values.dom() == after.known
            &&& after.shots[t].records.len() == after.nrecords
        } by {
            assert(b.shots[t].values.dom() == b.known);
            assert(after.shots[t].values.dom() =~= after.known);
        }
        assert(b.shots[s].values.dom() == b.known);
    }
}

/// Nothing but the amplitudes differs.
pub open spec fn only_amplitudes<A>(b: Block<A>, m: Block<A>) -> bool {
    &&& m.shots.len() == b.shots.len()
    &&& m == (Block { parts: m.parts, shots: m.shots, ..b })
    &&& forall|s: int|
        0 <= s < b.shots.len() ==> #[trigger] m.shots[s] == (Shot {
            lanes: m.shots[s].lanes,
            ..b.shots[s]
        })
}

proof fn lemma_amplitudes_consistent<A>(b: Block<A>, m: Block<A>, shots: int)
    requires
        consistent(b, shots),
        m.shots.len() == b.shots.len(),
        m.known == b.known,
        m.nsymbols == b.nsymbols,
        m.nrecords == b.nrecords,
        forall|s: int|
            0 <= s < b.shots.len() ==> #[trigger] m.shots[s] == (Shot {
                lanes: m.shots[s].lanes,
                ..b.shots[s]
            }),
    ensures
        consistent(m, shots),
{
    assert forall|s: int| 0 <= s < m.shots.len() implies {
        &&& 0 <= (#[trigger] m.shots[s]).sample < shots
        &&& m.shots[s].values.dom() == m.known
        &&& m.shots[s].records.len() == m.nrecords
    } by {
        assert(b.shots[s].values.dom() == b.known);
    }
}

proof fn lemma_merge_from_keeps<A, K: ActiveKernels<A>>(
    k: &K,
    b: Block<A>,
    list: Seq<usize>,
    target: int,
    from: int,
    end: int,
)
    requires
        merge_from(k, b, list, target, from, end) is Ok,
    ensures
        only_amplitudes(b, merge_from(k, b, list, target, from, end)->Ok_0),
    decreases end - from,
{
    if from < end {
        let next = merge_one(k, b, target, list[from] as int)->Ok_0;
        assert(only_amplitudes(b, next));
        lemma_merge_from_keeps(k, next, list, target, from + 1, end);
        let m = merge_from(k, next, list, target, from + 1, end)->Ok_0;
        assert forall|s: int| 0 <= s < b.shots.len() implies #[trigger] m.shots[s] == (Shot {
            lanes: m.shots[s].lanes,
            ..b.shots[s]
        }) by {
            assert(next.shots[s] == (Shot { lanes: next.shots[s].lanes, ..b.shots[s] }));
        }
    }
}

/// A merge changes nothing but the amplitudes.
pub proof fn lemma_merge_keeps<A, K: ActiveKernels<A>>(
    k: &K,
    b: Block<A>,
    list: Seq<usize>,
    offset: int,
    count: int,
    expected: int,
)
    requires
        merge(k, b, list, offset, count, expected) is Ok,
    ensures
        only_amplitudes(b, merge(k, b, list, offset, count, expected)->Ok_0),
{
    lemma_merge_from_keeps(k, b, list, expected, offset + 1, offset + count);
}

/// The generator states between the measurements of the shots, in order.
pub open spec fn measured_in_turn<A, K: ActiveKernels<A>>(
    k: &K,
    kernel: MeasurementKernel,
    lanes: Seq<Seq<A>>,
    states: Seq<u64>,
    branches: Seq<bool>,
    outs: Seq<Seq<A>>,
) -> bool {
    &&& states.len() == lanes.len() + 1
    &&& branches.len() == lanes.len()
    &&& outs.len() == lanes.len()
    &&& forall|s: int|
        0 <= s < lanes.len() ==> {
            let half = lanes[s].len() as int / 2;
            measured_by(
                k,
                joints(kernel, false, half),
                joints(kernel, true, half),
                #[trigger] lanes[s],
                states[s],
            ) == (states[s + 1], Some((branches[s], outs[s])))
        }
}

proof fn lemma_measured_in_turn<A, K: ActiveKernels<A>>(
    k: &K,
    kernel: MeasurementKernel,
    lanes: Seq<Seq<A>>,
    rng: u64,
    n: int,
) -> (states: Seq<u64>)
    requires
        0 <= n <= lanes.len(),
        measured_lanes(k, kernel, lanes, rng, n) is Some,
    ensures
        ({
            let (next, branches, outs) = measured_lanes(k, kernel, lanes, rng, n)->0;
            &&& measured_in_turn(k, kernel, lanes.take(n), states, branches, outs)
            &&& states[0] == rng
            &&& states[n] == next
        }),
    decreases n,
{
    let (next, branches, outs) = measured_lanes(k, kernel, lanes, rng, n)->0;
    if n == 0 {
        seq![rng]
    } else {
        let before = lemma_measured_in_turn(k, kernel, lanes, rng, n - 1);
        let (last, branches0, outs0) = measured_lanes(k, kernel, lanes, rng, n - 1)->0;
        let states = before.push(next);
        assert forall|s: int| 0 <= s < n implies {
            let half = lanes.take(n)[s].len() as int / 2;
            measured_by(
                k,
                joints(kernel, false, half),
                joints(kernel, true, half),
                #[trigger] lanes.take(n)[s],
                states[s],
            ) == (states[s + 1], Some((branches[s], outs[s])))
        } by {
            if s < n - 1 {
                assert(lanes.take(n - 1)[s] == lanes[s]);
            }
        }
        states
    }
}

/// A measured part: shot after shot, the branch and the projected amplitudes are what
/// the arithmetic gives for the shot's amplitudes and the generator left by the shots
/// before it. The part loses one qubit, which is dormant again.
pub proof fn law_shots_are_measured_in_turn<A, K: ActiveKernels<A>>(
    k: &K,
    b: Block<A>,
    j: int,
    kernel: MeasurementKernel,
) -> (states: Seq<u64>)
    requires
        0 <= j < b.parts.len(),
        forall|s: int| 0 <= s < b.shots.len() ==> (#[trigger] b.shots[s]).lanes.len() == b.parts.len(),
        measure(k, b, j, kernel) is Ok,
    ensures
        ({
            let (after, branches) = measure(k, b, j, kernel)->Ok_0;
            &&& kernel.action.nqubits == b.parts[j].k && b.parts[j].k != 0
            &&& measured_in_turn(
                k,
                kernel,
                part_lanes(b, j),
                states,
                branches,
                part_lanes(after, j),
            )
            &&& states[0] == b.rng
            &&& states[b.shots.len() as int] == after.rng
            &&& after.parts[j].k == b.parts[j].k - 1
            &&& after.k == b.k - 1
            &&& after.ndormant == b.ndormant + 1
            &&& branches.len() == b.shots.len()
            &&& after.shots.len() == b.shots.len()
            &&& after.known == b.known
            &&& after.nsymbols == b.nsymbols
            &&& after.nrecords == b.nrecords
            &&& forall|s: int|
                0 <= s < b.shots.len() ==> #[trigger] after.shots[s] == (Shot {
                    lanes: b.shots[s].lanes.update(j, after.shots[s].lanes[j]),
                    ..b.shots[s]
                })
        }),
{
    let n = b.shots.len() as int;
    let lanes = part_lanes(b, j);
    let states = lemma_measured_in_turn(k, kernel, lanes, b.rng, n);
    assert(lanes.take(n) =~= lanes);
    let (after, branches) = measure(k, b, j, kernel)->Ok_0;
    let (next, drawn, outs) = measured_lanes(k, kernel, lanes, b.rng, n)->0;
    assert forall|s: int| 0 <= s < n implies #[trigger] after.shots[s] == (Shot {
        lanes: b.shots[s].lanes.update(j, after.shots[s].lanes[j]),
        ..b.shots[s]
    }) by {
        assert(b.shots[s].lanes.len() == b.parts.len());
    }
    assert(part_lanes(after, j) =~= outs) by {
        assert forall|s: int| 0 <= s < n implies part_lanes(after, j)[s] == outs[s] by {
            assert(b.shots[s].lanes.len() == b.parts.len());
        }
    }
    states
}

/// The generator states between the draws of words, and the words.
pub open spec fn drawn_in_turn<A, K: ActiveKernels<A>>(
    k: &K,
    states: Seq<u64>,
    words: Seq<u64>,
) -> bool {
    &&& states.len() == words.len() + 1
    &&& forall|w: int|
        0 <= w < words.len() ==> random_of::<A, K>(k, states[w]) == (
            states[w + 1],
            #[trigger] words[w],
        )
}

proof fn lemma_drawn_in_turn<A, K: ActiveKernels<A>>(k: &K, rng: u64, n: int) -> (states: Seq<u64>)
    requires
        0 <= n,
    ensures
        ({
            let (next, words) = coin_words::<A, K>(k, rng, n);
            &&& drawn_in_turn::<A, K>(k, states, words)
            &&& words.len() == n
            &&& states[0] == rng
            &&& states[n] == next
        }),
    decreases n,
{
    let (next, words) = coin_words::<A, K>(k, rng, n);
    if n == 0 {
        seq![rng]
    } else {
        let before = lemma_drawn_in_turn::<A, K>(k, rng, n - 1);
        let states = before.push(next);
        assert forall|w: int| 0 <= w < words.len() implies random_of::<A, K>(k, states[w]) == (
            states[w + 1],
            #[trigger] words[w],
        ) by {
            if w < n - 1 {
                assert(words[w] == coin_words::<A, K>(k, rng, n - 1).1[w]);
            }
        }
        states
    }
}

/// A dormant qubit comes out by fair coins: one random word for every 64 shots, drawn in
/// turn, and bit `s % 64` of word `s / 64` for shot `s`.
pub proof fn law_dormant_branches_are_fair_coins<A, K: ActiveKernels<A>>(k: &K, b: Block<A>) -> (r: (
    Seq<u64>,
    Seq<u64>,
))
    ensures
        ({
            let (states, words) = r;
            let (next, bits) = coins(k, b);
            &&& drawn_in_turn::<A, K>(k, states, words)
            &&& states[0] == b.rng
            &&& states[words.len() as int] == next
            &&& 64 * words.len() >= b.shots.len()
            &&& 64 * words.len() < b.shots.len() + 64
            &&& bits.len() == b.shots.len()
            &&& forall|s: int|
                0 <= s < b.shots.len() ==> #[trigger] bits[s] == word_bit(words[s / 64], s % 64)
        }),
{
    let n = crate::bits::words_for_bits(b.shots.len() as int);
    let states = lemma_drawn_in_turn::<A, K>(k, b.rng, n);
    (states, coin_words::<A, K>(k, b.rng, n).1)
}

/// What the measuring instruction leaves of a shot before it writes the record: the
/// symbol that it draws is assigned, and its records are as they were.
proof fn lemma_branch_block<A, K: ActiveKernels<A>>(
    k: &K,
    b: Block<A>,
    j: int,
    kernel: MeasurementKernel,
    branch: i32,
    shots: int,
    s: int,
)
    requires
        consistent(b, shots),
        0 <= s < b.shots.len(),
        0 <= j < b.parts.len(),
        forall|t: int| 0 <= t < b.shots.len() ==> (#[trigger] b.shots[t]).lanes.len() == b.parts.len(),
        measure_branch(k, b, j, kernel, branch) is Ok,
    ensures
        ({
            let (after, branches) = measure_branch(k, b, j, kernel, branch)->Ok_0;
            &&& consistent(after, shots)
            &&& branches.len() == b.shots.len()
            &&& after.shots.len() == b.shots.len()
            &&& after.known.contains(branch)
            &&& after.shots[s].values[branch] == branches[s]
            &&& after.shots[s].records == b.shots[s].records
            &&& after.shots[s].sample == b.shots[s].sample
        }),
{
    let _ = law_shots_are_measured_in_turn(k, b, j, kernel);
    let (m, branches) = measure(k, b, j, kernel)->Ok_0;
    lemma_amplitudes_consistent(b, m, shots);
    lemma_assigned(m, branch, branches, shots, s);
}

/// After every measuring instruction the written record of a shot, and the symbol that
/// follows the record, hold whether an odd number of the terms of the instruction's
/// outcome expression is true, the constant among them, over the drawn noise and the
/// symbols that the shot then holds. The other records are as before.
#[verifier::rlimit(60)]
#[verifier::spinoff_prover]
pub proof fn law_records_hold_their_outcomes<A, K: ActiveKernels<A>>(
    k: &K,
    program: &FactoredInstructionProgram,
    plan: PresampledExpressionPlan,
    draws: ExogenousDraws,
    shots: int,
    i: int,
    b: Block<A>,
    s: int,
)
    requires
        program.wf(),
        planned(program, plan),
        0 <= i < program.instructions@.len(),
        consistent(b, shots),
        0 <= s < b.shots.len(),
        0 < b.parts.len(),
        forall|t: int| 0 <= t < b.shots.len() ==> (#[trigger] b.shots[t]).lanes.len() == b.parts.len(),
        written_outcome(program.instructions@[i]) is Some,
        program.instructions@[i].drawn() is Some ==> !is_exogenous(
            program,
            program.instructions@[i].drawn()->0,
        ),
        b.split ==> (program.active_component_plan->0).instruction_steps@[i].kind
            != ActiveComponentStepKind::IgnoredGlobalPhase,
        step(k, noise_table(plan, program, draws, shots), plan, program, i, b) is Ok,
    ensures
        ({
            let ins = program.instructions@[i];
            let outcome = written_outcome(ins)->0;
            let after = step(k, noise_table(plan, program, draws, shots), plan, program, i, b)->Ok_0;
            &&& after.shots.len() == b.shots.len()
            &&& records_bit(
                b.shots[s],
                after.shots[s],
                named_record(ins),
                named_condition(ins),
                odd_terms(
                    outcome.constant,
                    outcome.conditions@,
                    truth(program, draws, shots, after.shots[s]),
                ),
            )
        }),
{
    let ins = program.instructions@[i];
    let base = noise_table(plan, program, draws, shots);
    assert(ins.wf());
    if b.split {
        let parts = program.active_component_plan->0;
        let part_step = parts.instruction_steps@[i];
        match part_step.kind {
            ActiveComponentStepKind::Measurement => {
                match ins {
                    FactoredInstruction::MeasurePrecomputedActivePauli(inst) => {
                        let m = parts.measurements@[part_step.payload as int];
                        let at = m.component as int;
                        let list = parts.merge_components@;
                        lemma_merge_keeps(
                            k,
                            b,
                            list,
                            m.merge_offset as int,
                            m.merge_count as int,
                            at,
                        );
                        let merged = merge(
                            k,
                            b,
                            list,
                            m.merge_offset as int,
                            m.merge_count as int,
                            at,
                        )->Ok_0;
                        lemma_amplitudes_consistent(b, merged, shots);
                        lemma_merge_lanes(
                            k,
                            b,
                            list,
                            at,
                            m.merge_offset + 1,
                            m.merge_offset + m.merge_count,
                        );
                        lemma_branch_block(k, merged, at, m.kernel, inst.branch, shots, s);
                        let (after, branches) = measure_branch(
                            k,
                            merged,
                            at,
                            m.kernel,
                            inst.branch,
                        )->Ok_0;
                        let left = if m.deactivate_after {
                            with_lanes(
                                after,
                                at,
                                Part { active: false, ..after.parts[at] },
                                Seq::new(after.shots.len(), |s: int| Seq::empty()),
                            )
                        } else {
                            after
                        };
                        lemma_amplitudes_consistent(after, left, shots);
                        lemma_write_branch(
                            program,
                            plan,
                            draws,
                            shots,
                            i,
                            left,
                            branches,
                            inst.branch,
                            s,
                        );
                    },
                    _ => {},
                }
            },
            ActiveComponentStepKind::Unaffected => {
                lemma_whole_records(k, program, plan, draws, shots, i, b, s);
            },
            _ => {},
        }
    } else {
        lemma_whole_records(k, program, plan, draws, shots, i, b, s);
    }
}

pub proof fn lemma_merge_lanes<A, K: ActiveKernels<A>>(
    k: &K,
    b: Block<A>,
    list: Seq<usize>,
    target: int,
    from: int,
    end: int,
)
    requires
        0 <= target < b.parts.len(),
        forall|t: int| 0 <= t < b.shots.len() ==> (#[trigger] b.shots[t]).lanes.len() == b.parts.len(),
        merge_from(k, b, list, target, from, end) is Ok,
    ensures
        ({
            let m = merge_from(k, b, list, target, from, end)->Ok_0;
            &&& m.parts.len() == b.parts.len()
            &&& forall|t: int|
                0 <= t < m.shots.len() ==> (#[trigger] m.shots[t]).lanes.len() == m.parts.len()
        }),
    decreases end - from,
{
    if from < end {
        let next = merge_one(k, b, target, list[from] as int)->Ok_0;
        assert forall|t: int| 0 <= t < next.shots.len() implies (#[trigger] next.shots[t]).lanes.len()
            == next.parts.len() by {
            assert(b.shots[t].lanes.len() == b.parts.len());
        }
        lemma_merge_lanes(k, next, list, target, from + 1, end);
    }
}

/// A record written from the instruction's sign.
proof fn lemma_signed_record<A>(
    program: &FactoredInstructionProgram,
    plan: PresampledExpressionPlan,
    draws: ExogenousDraws,
    shots: int,
    i: int,
    b: Block<A>,
    record: Option<i32>,
    condition: Option<i32>,
    s: int,
)
    requires
        program.wf(),
        planned(program, plan),
        0 <= i < program.instructions@.len(),
        consistent(b, shots),
        0 <= s < b.shots.len(),
        bulk_plan(program.instructions@[i]) is Some,
        sign_refusal(plan, i, b) is None,
        write_measurement(
            b,
            record,
            signs(noise_table(plan, program, draws, shots), plan, i, b),
            condition,
        ) is Ok,
    ensures
        ({
            let source = bulk_plan(program.instructions@[i])->0;
            let after = write_measurement(
                b,
                record,
                signs(noise_table(plan, program, draws, shots), plan, i, b),
                condition,
            )->Ok_0;
            &&& after.shots.len() == b.shots.len()
            &&& records_bit(
                b.shots[s],
                after.shots[s],
                record,
                condition,
                odd_terms(
                    source.constant,
                    source.conditions@,
                    truth(program, draws, shots, after.shots[s]),
                ),
            )
        }),
{
    let bits = signs(noise_table(plan, program, draws, shots), plan, i, b);
    let source = bulk_plan(program.instructions@[i])->0;
    lemma_write_measurement(b, record, bits, condition, shots, s);
    let after = write_measurement(b, record, bits, condition)->Ok_0;
    law_signs_count_their_terms(program, plan, draws, shots, i, b.shots[s]);
    assert(b.shots[s].values.dom() == b.known);
    assert forall|q: int|
        0 <= q < source.conditions@.len() && !is_exogenous(
            program,
            #[trigger] source.conditions@[q],
        ) implies b.shots[s].values.contains_key(source.conditions@[q])
        && after.shots[s].values.contains_key(source.conditions@[q])
        && b.shots[s].values[source.conditions@[q]]
        == after.shots[s].values[source.conditions@[q]] by {
        lemma_residual_known(program, plan, shots, i, b, q);
    }
    lemma_same_terms(program, draws, shots, source.conditions@, b.shots[s], after.shots[s]);
}

#[verifier::rlimit(100)]
#[verifier::spinoff_prover]
proof fn lemma_whole_records<A, K: ActiveKernels<A>>(
    k: &K,
    program: &FactoredInstructionProgram,
    plan: PresampledExpressionPlan,
    draws: ExogenousDraws,
    shots: int,
    i: int,
    b: Block<A>,
    s: int,
)
    requires
        program.wf(),
        planned(program, plan),
        0 <= i < program.instructions@.len(),
        consistent(b, shots),
        0 <= s < b.shots.len(),
        0 < b.parts.len(),
        forall|t: int| 0 <= t < b.shots.len() ==> (#[trigger] b.shots[t]).lanes.len() == b.parts.len(),
        written_outcome(program.instructions@[i]) is Some,
        program.instructions@[i].drawn() is Some ==> !is_exogenous(
            program,
            program.instructions@[i].drawn()->0,
        ),
        step_whole(
            k,
            noise_table(plan, program, draws, shots),
            plan,
            program.instructions@[i],
            i,
            b,
        ) is Ok,
    ensures
        ({
            let ins = program.instructions@[i];
            let outcome = written_outcome(ins)->0;
            let after = step_whole(
                k,
                noise_table(plan, program, draws, shots),
                plan,
                ins,
                i,
                b,
            )->Ok_0;
            &&& after.shots.len() == b.shots.len()
            &&& records_bit(
                b.shots[s],
                after.shots[s],
                named_record(ins),
                named_condition(ins),
                odd_terms(
                    outcome.constant,
                    outcome.conditions@,
                    truth(program, draws, shots, after.shots[s]),
                ),
            )
        }),
{
    let ins = program.instructions@[i];
    let base = noise_table(plan, program, draws, shots);
    assert(ins.wf());
    match ins {
        FactoredInstruction::RecordMeasurement(inst) => {
            lemma_signed_record(
                program,
                plan,
                draws,
                shots,
                i,
                b,
                inst.record,
                inst.record_condition,
                s,
            );
        },
        FactoredInstruction::MeasurePrecomputedActivePauli(inst) => {
            lemma_branch_block(k, b, 0, inst.kernel, inst.branch, shots, s);
            let (after, branches) = measure_branch(k, b, 0, inst.kernel, inst.branch)->Ok_0;
            lemma_write_branch(
                program,
                plan,
                draws,
                shots,
                i,
                after,
                branches,
                inst.branch,
                s,
            );
        },
        FactoredInstruction::IntroduceDormantMeasurementBranch(inst) => {
            let (next, bits) = coins(k, b);
            let moved = Block { rng: next, ..b };
            assert(consistent(moved, shots));
            lemma_assigned(moved, inst.branch, bits, shots, s);
            let after = assign(moved, inst.branch, bits)->Ok_0;
            lemma_write_branch(program, plan, draws, shots, i, after, bits, inst.branch, s);
        },
        _ => {},
    }
}

// ---------------------------------------------------------------------------
// Detectors
// ---------------------------------------------------------------------------
/// What a shot's records say of a record id.
pub open spec fn record_set<A>(shot: Shot<A>) -> spec_fn(i32) -> bool {
    |q: i32| shot.records[q - 1]
}

proof fn lemma_records_parity<A>(records: Seq<i32>, shot: Shot<A>, n: int)
    requires
        0 <= n <= records.len(),
    ensures
        records_parity(records, shot, n) == odd_among(records.take(n), record_set(shot)),
    decreases n,
{
    reveal(Seq::filter);
    if n > 0 {
        lemma_records_parity(records, shot, n - 1);
        assert(records.take(n).drop_last() =~= records.take(n - 1));
        assert(records.take(n).last() == records[n - 1]);
    }
}

/// A detector with records fires exactly where an odd number of its listed records is
/// set.
pub proof fn law_detectors_count_their_records<A>(
    base: spec_fn(int, int) -> bool,
    plan: PresampledExpressionPlan,
    detector: RecordDetector,
    i: int,
    shot: Shot<A>,
)
    requires
        detector.records@.len() > 0,
    ensures
        detector_at(base, plan, detector, i, shot) == odd_among(
            detector.records@,
            record_set(shot),
        ),
{
    let n = detector.records@.len() as int;
    lemma_records_parity(detector.records@, shot, n);
    assert(detector.records@.take(n) =~= detector.records@);
}

/// A detector over two lists of records, one after the other, is the XOR of the
/// detectors over each.
pub proof fn law_detectors_add_up<A>(
    base: spec_fn(int, int) -> bool,
    plan: PresampledExpressionPlan,
    both: RecordDetector,
    first: RecordDetector,
    second: RecordDetector,
    i: int,
    shot: Shot<A>,
)
    requires
        first.records@.len() > 0,
        second.records@.len() > 0,
        both.records@ == first.records@ + second.records@,
    ensures
        detector_at(base, plan, both, i, shot) == (detector_at(base, plan, first, i, shot)
            != detector_at(base, plan, second, i, shot)),
{
    law_detectors_count_their_records(base, plan, both, i, shot);
    law_detectors_count_their_records(base, plan, first, i, shot);
    law_detectors_count_their_records(base, plan, second, i, shot);
    Seq::filter_distributes_over_add(first.records@, second.records@, record_set(shot));
}

proof fn lemma_flipped_count(list: Seq<i32>, v: spec_fn(i32) -> bool, w: spec_fn(i32) -> bool, x: i32)
    requires
        forall|c: i32| c != x ==> #[trigger] v(c) == w(c),
        v(x) != w(x),
    ensures
        (odd_among(list, v) != odd_among(list, w)) == odd_among(list, |c: i32| c == x),
    decreases list.len(),
{
    reveal(Seq::filter);
    if list.len() > 0 {
        lemma_flipped_count(list.drop_last(), v, w, x);
        assert(v(list.last()) == w(list.last()) || list.last() == x);
    }
}

/// Flipping a record flips a detector that lists it an odd number of times, and no
/// other.
pub proof fn law_a_flipped_record_flips_its_detectors<A>(
    base: spec_fn(int, int) -> bool,
    plan: PresampledExpressionPlan,
    detector: RecordDetector,
    i: int,
    a: Shot<A>,
    b: Shot<A>,
    record: i32,
)
    requires
        detector.records@.len() > 0,
        records_exist(detector.records@, a.records.len() as int),
        0 < record <= a.records.len(),
        b.records == a.records.update(record - 1, !a.records[record - 1]),
    ensures
        (detector_at(base, plan, detector, i, a) != detector_at(base, plan, detector, i, b))
            == odd_among(detector.records@, |q: i32| q == record),
{
    law_detectors_count_their_records(base, plan, detector, i, a);
    law_detectors_count_their_records(base, plan, detector, i, b);
    let list = detector.records@;
    let n = a.records.len() as int;
    let v = |q: i32| 0 < q <= n && record_set(a)(q);
    let w = |q: i32| 0 < q <= n && record_set(b)(q);
    assert forall|q: int| 0 <= q < list.len() implies v(#[trigger] list[q]) == record_set(a)(
        list[q],
    ) && w(list[q]) == record_set(b)(list[q]) by {
        assert(0 < list[q] <= n);
    }
    lemma_count_ext(list, v, record_set(a));
    lemma_count_ext(list, w, record_set(b));
    lemma_flipped_count(list, v, w, record);
}

proof fn lemma_count_ext(list: Seq<i32>, v: spec_fn(i32) -> bool, w: spec_fn(i32) -> bool)
    requires
        forall|q: int| 0 <= q < list.len() ==> v(#[trigger] list[q]) == w(list[q]),
    ensures
        odd_among(list, v) == odd_among(list, w),
{
    law_xor_counts_its_terms(list, v);
    law_xor_counts_its_terms(list, w);
    lemma_xor_of_ext(list, v, w);
}

/// Whether a detector fires for a shot: by its records where it lists any, by its
/// expression otherwise.
pub open spec fn fires<A>(
    program: &FactoredInstructionProgram,
    draws: ExogenousDraws,
    shots: int,
    detector: RecordDetector,
    shot: Shot<A>,
) -> bool {
    if detector.records@.len() > 0 {
        odd_among(detector.records@, record_set(shot))
    } else {
        odd_terms(
            detector.outcome.constant,
            detector.outcome.conditions@,
            truth(program, draws, shots, shot),
        )
    }
}

proof fn lemma_fires<A>(
    program: &FactoredInstructionProgram,
    plan: PresampledExpressionPlan,
    draws: ExogenousDraws,
    shots: int,
    detector: RecordDetector,
    i: int,
    shot: Shot<A>,
)
    requires
        program.wf(),
        planned(program, plan),
        0 <= i < program.instructions@.len(),
        program.instructions@[i] == FactoredInstruction::RecordDetector(detector),
        0 <= shot.sample < shots,
    ensures
        detector_at(noise_table(plan, program, draws, shots), plan, detector, i, shot) == fires(
            program,
            draws,
            shots,
            detector,
            shot,
        ),
{
    let base = noise_table(plan, program, draws, shots);
    assert(program.instructions@[i].wf());
    if detector.records@.len() > 0 {
        law_detectors_count_their_records(base, plan, detector, i, shot);
    } else if detector.outcome.conditions@.len() == 0 {
        law_xor_counts_its_terms(
            detector.outcome.conditions@,
            truth(program, draws, shots, shot),
        );
    } else {
        law_signs_count_their_terms(program, plan, draws, shots, i, shot);
    }
}

/// What a detector leaves of a shot: its own column holds whether it fired, the shot
/// remembers that some detector did, and nothing else changes.
pub open spec fn notes_detector<A>(
    before: Shot<A>,
    after: Shot<A>,
    stored: bool,
    id: int,
    fired: bool,
) -> bool {
    &&& after == (Shot { detectors: after.detectors, fired: after.fired, ..before })
    &&& after.fired == (before.fired || fired)
    &&& if stored {
        &&& 0 < id <= after.detectors.len()
        &&& after.detectors[id - 1] == fired
        &&& forall|q: int|
            0 <= q < before.detectors.len() && q != id - 1 ==> #[trigger] after.detectors[q]
                == before.detectors[q]
    } else {
        after.detectors == before.detectors
    }
}

/// A detector is noted as having fired exactly where an odd number of its records, or
/// of the terms of its expression, is set.
pub proof fn law_detectors_note_what_fired<A, K: ActiveKernels<A>>(
    k: &K,
    program: &FactoredInstructionProgram,
    plan: PresampledExpressionPlan,
    draws: ExogenousDraws,
    shots: int,
    detector: RecordDetector,
    i: int,
    b: Block<A>,
    s: int,
)
    requires
        program.wf(),
        planned(program, plan),
        0 <= i < program.instructions@.len(),
        program.instructions@[i] == FactoredInstruction::RecordDetector(detector),
        0 <= s < b.shots.len(),
        0 <= b.shots[s].sample < shots,
        b.stores_detectors ==> b.shots[s].detectors.len() == b.ndetectors,
        b.split ==> (program.active_component_plan->0).instruction_steps@[i].kind
            == ActiveComponentStepKind::Unaffected,
        step(k, noise_table(plan, program, draws, shots), plan, program, i, b) is Ok,
    ensures
        ({
            let after = step(k, noise_table(plan, program, draws, shots), plan, program, i, b)->Ok_0;
            &&& after.shots.len() == b.shots.len()
            &&& after == (Block { ndetectors: after.ndetectors, shots: after.shots, ..b })
            &&& notes_detector(
                b.shots[s],
                after.shots[s],
                b.stores_detectors,
                detector.detector as int,
                fires(program, draws, shots, detector, b.shots[s]),
            )
        }),
{
    lemma_fires(program, plan, draws, shots, detector, i, b.shots[s]);
    let after = step(k, noise_table(plan, program, draws, shots), plan, program, i, b)->Ok_0;
    assert(after.shots[s].detectors.len() == if b.stores_detectors {
        after.ndetectors
    } else {
        b.shots[s].detectors.len() as int
    });
}

proof fn lemma_accepted_indices<A>(
    shots: Seq<Shot<A>>,
    outcomes: Seq<bool>,
    expected: bool,
    p: spec_fn(int) -> bool,
    n: int,
)
    requires
        0 <= n <= shots.len(),
        n <= outcomes.len(),
        forall|s: int| 0 <= s < n ==> #[trigger] p(s) == (outcomes[s] == expected),
    ensures
        accepted(shots, outcomes, expected, n).len() == Seq::new(n as nat, |s: int| s).filter(p).len(),
        forall|j: int|
            0 <= j < accepted(shots, outcomes, expected, n).len() ==> (#[trigger] accepted(
                shots,
                outcomes,
                expected,
                n,
            )[j]) == shots[Seq::new(n as nat, |s: int| s).filter(p)[j]],
    decreases n,
{
    reveal(Seq::filter);
    let all = Seq::new(n as nat, |s: int| s);
    let kept = all.filter(p);
    let left = accepted(shots, outcomes, expected, n);
    if n > 0 {
        lemma_accepted_indices(shots, outcomes, expected, p, n - 1);
        let less = Seq::new((n - 1) as nat, |s: int| s);
        assert(all.drop_last() =~= less);
        assert(all.last() == n - 1);
        let before = less.filter(p);
        assert(p(n - 1) == (outcomes[n - 1] == expected));
        assert(kept == if p(n - 1) {
            before.push(n - 1)
        } else {
            before
        });
        assert forall|j: int| 0 <= j < left.len() implies #[trigger] left[j] == shots[kept[j]] by {
            if j < before.len() {
                assert(left[j] == accepted(shots, outcomes, expected, n - 1)[j]);
            }
        }
    }
}

/// The shots whose detector came out as expected, in order.
pub open spec fn shots_as_expected<A>(
    program: &FactoredInstructionProgram,
    draws: ExogenousDraws,
    shots: int,
    detector: RecordDetector,
    expected: bool,
    list: Seq<Shot<A>>,
) -> Seq<int> {
    Seq::new(list.len(), |s: int| s).filter(
        |s: int| fires(program, draws, shots, detector, list[s]) == expected,
    )
}

/// A discarding detector keeps exactly the shots whose outcome is the expected one, in
/// their order, and notes the outcome where detectors are stored. The outcome that is
/// expected of detector `d` is entry `d - 1` of the list, and clear behind its end.
pub proof fn law_selection_keeps_the_expected_shots<A, K: ActiveKernels<A>>(
    k: &K,
    program: &FactoredInstructionProgram,
    plan: PresampledExpressionPlan,
    draws: ExogenousDraws,
    shots: int,
    detector: RecordDetector,
    expected: Seq<u8>,
    i: int,
    b: Block<A>,
    j: int,
)
    requires
        program.wf(),
        planned(program, plan),
        0 <= i < program.instructions@.len(),
        program.instructions@[i] == FactoredInstruction::RecordDetector(detector),
        detector.postselect,
        0 < detector.detector,
        forall|s: int| 0 <= s < b.shots.len() ==> 0 <= (#[trigger] b.shots[s]).sample < shots,
        b.split ==> (program.active_component_plan->0).instruction_steps@[i].kind
            == ActiveComponentStepKind::Unaffected,
        select_step(k, noise_table(plan, program, draws, shots), plan, program, expected, i, b) is Ok,
    ensures
        ({
            let after = select_step(
                k,
                noise_table(plan, program, draws, shots),
                plan,
                program,
                expected,
                i,
                b,
            )->Ok_0;
            let id = detector.detector as int;
            let wanted = id <= expected.len() && expected[id - 1] != 0;
            let kept = shots_as_expected(program, draws, shots, detector, wanted, b.shots);
            &&& after.shots.len() == kept.len()
            &&& after == (Block { ndetectors: after.ndetectors, shots: after.shots, ..b })
            &&& 0 <= j < kept.len() ==> {
                &&& 0 <= kept[j] < b.shots.len()
                &&& fires(program, draws, shots, detector, b.shots[kept[j]]) == wanted
                &&& if b.stores_detectors {
                    b.shots[kept[j]].detectors.len() == b.ndetectors ==> notes_detector(
                        b.shots[kept[j]],
                        after.shots[j],
                        true,
                        id,
                        wanted,
                    )
                } else {
                    after.shots[j] == b.shots[kept[j]]
                }
            }
        }),
{
    let base = noise_table(plan, program, draws, shots);
    let id = detector.detector as int;
    let wanted = id <= expected.len() && expected[id - 1] != 0;
    assert(discards_at(program, b.split, i));
    assert(wanted == expected_at(expected, detector.detector));
    let outcomes = detector_outcomes(base, plan, detector, i, b);
    let written = if b.stores_detectors {
        crate::model::with_detectors(b, id, outcomes)
    } else {
        b
    };
    let n = b.shots.len() as int;
    let q = |s: int| fires(program, draws, shots, detector, b.shots[s]) == wanted;
    assert forall|s: int| 0 <= s < n implies #[trigger] q(s) == (outcomes[s] == wanted) by {
        lemma_fires(program, plan, draws, shots, detector, i, b.shots[s]);
    }
    lemma_accepted_indices(written.shots, outcomes, wanted, q, n);
    let after = select_step(k, base, plan, program, expected, i, b)->Ok_0;
    assert(after.shots == accepted(written.shots, outcomes, wanted, n));
    let kept = shots_as_expected(program, draws, shots, detector, wanted, b.shots);
    if 0 <= j < kept.len() {
        assert(after.shots[j] == written.shots[kept[j]]);
        lemma_filter_holds(n as nat, q, j);
        lemma_fires(program, plan, draws, shots, detector, i, b.shots[kept[j]]);
    }
}

proof fn lemma_filter_holds(n: nat, p: spec_fn(int) -> bool, j: int)
    requires
        0 <= j < Seq::new(n, |s: int| s).filter(p).len(),
    ensures
        p(Seq::new(n, |s: int| s).filter(p)[j]),
        0 <= Seq::new(n, |s: int| s).filter(p)[j] < n,
    decreases n,
{
    reveal(Seq::filter);
    let all = Seq::new(n, |s: int| s);
    if n > 0 {
        assert(all.drop_last() =~= Seq::new((n - 1) as nat, |s: int| s));
        assert(all.last() == n - 1);
        if j < all.drop_last().filter(p).len() {
            lemma_filter_holds((n - 1) as nat, p, j);
        }
    }
}

} // verus!
