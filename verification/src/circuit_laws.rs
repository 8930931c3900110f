//! What the instructions of a circuit do, kind by kind: the state each leads to is
//! the one that the method, or the operator, of its name leads to.
use vstd::prelude::*;
use crate::batch::{
    batch_ends, batch_runs, batch_step, circuit_ends, draws_pauli, performs, reads_out,
    records_value, BatchOutcome, BatchState,
};
use crate::collapse::{peeks, resets};
use crate::evolve::{
    is_finite, rotates, rotates_basis, rotates_on, MeasureResult, TermKernels, Turn,
};
use crate::gates::axis_op;
use crate::instruction::{
    actions, channel_ops, chunk, circuit_actions, code_digit, code_op, concat_below, digit_letter,
    instruction_actions, is_pair_kind, operand_actions, operand_count, ops, with_letter, Action,
    Circuit, CircuitInstruction, CircuitInstructionKind, Instruction, MeasurementTarget, Share,
};
use crate::pauli::{bit01, PauliBasis, PauliOp, PauliString};
use crate::sim_error::SimError;
use crate::simulator::{lemma_same_terms_chain, TableauSimulator};

verus! {

// ---------------------------------------------------------------------------
// Circuits in parts
// ---------------------------------------------------------------------------
proof fn lemma_concat_split(
    f: spec_fn(int) -> Seq<Action>,
    g: spec_fn(int) -> Seq<Action>,
    h: spec_fn(int) -> Seq<Action>,
    a: int,
    b: int,
)
    requires
        0 <= a,
        0 <= b,
        forall|i: int| 0 <= i < a ==> #[trigger] f(i) == g(i),
        forall|i: int| a <= i < a + b ==> #[trigger] f(i) == h(i - a),
    ensures
        concat_below(f, a + b) == concat_below(g, a) + concat_below(h, b),
    decreases a + b,
{
    if b > 0 {
        lemma_concat_split(f, g, h, a, b - 1);
        assert(f(a + b - 1) == h(b - 1));
        assert(concat_below(f, a + b) =~= concat_below(g, a) + concat_below(h, b));
    } else if a > 0 {
        lemma_concat_split(f, g, h, a - 1, 0);
        assert(f(a - 1) == g(a - 1));
        assert(concat_below(h, 0) =~= Seq::empty());
        assert(concat_below(f, a) =~= concat_below(g, a) + concat_below(h, 0));
    } else {
        assert(concat_below(f, 0) =~= concat_below(g, 0) + concat_below(h, 0));
    }
}

/// A circuit does what its first instructions do and then what the rest does.
pub proof fn law_circuits_act_in_order(whole: Circuit, first: Circuit, second: Circuit)
    requires
        whole.nqubits == first.nqubits,
        whole.nqubits == second.nqubits,
        whole.instructions@ == first.instructions@ + second.instructions@,
    ensures
        circuit_actions(whole) == circuit_actions(first) + circuit_actions(second),
{
    let n = whole.nqubits as int;
    lemma_concat_split(
        |k: int| instruction_actions(n, whole.instructions@[k]),
        |k: int| instruction_actions(n, first.instructions@[k]),
        |k: int| instruction_actions(n, second.instructions@[k]),
        first.instructions@.len() as int,
        second.instructions@.len() as int,
    );
}

/// How many entries of `qubits` one operand of the kind takes.
pub open spec fn qubits_each(kind: CircuitInstructionKind) -> int {
    if is_pair_kind(kind) {
        2
    } else {
        match kind {
            CircuitInstructionKind::Depolarize2 | CircuitInstructionKind::PauliChannel2 => 2,
            CircuitInstructionKind::Depolarize3 | CircuitInstructionKind::PauliChannel3 => 3,
            _ => 1,
        }
    }
}

/// `whole` lists the operands of `first` and then those of `second`.
pub open spec fn operands_joined(
    whole: CircuitInstruction,
    first: CircuitInstruction,
    second: CircuitInstruction,
) -> bool {
    &&& whole.kind == first.kind
    &&& whole.kind == second.kind
    &&& whole.probability == first.probability
    &&& whole.probability == second.probability
    &&& whole.probabilities@ == first.probabilities@
    &&& whole.probabilities@ == second.probabilities@
    &&& whole.kernel_angle == first.kernel_angle
    &&& whole.kernel_angle == second.kernel_angle
    &&& whole.qubits@ == first.qubits@ + second.qubits@
    &&& whole.pauli_products@ == first.pauli_products@ + second.pauli_products@
    &&& whole.measurement_targets@ == first.measurement_targets@ + second.measurement_targets@
    &&& whole.feedback_targets@ == first.feedback_targets@ + second.feedback_targets@
}

/// An instruction with several operands does what the same instruction does to each
/// operand in turn.
#[verifier::rlimit(60)]
#[verifier::spinoff_prover]
pub proof fn law_operands_act_in_order(
    n: int,
    whole: CircuitInstruction,
    first: CircuitInstruction,
    second: CircuitInstruction,
)
    requires
        operands_joined(whole, first, second),
        first.qubits@.len() as int % qubits_each(whole.kind) == 0,
        whole.kind != CircuitInstructionKind::PauliProductChannel,
    ensures
        instruction_actions(n, whole) == instruction_actions(n, first) + instruction_actions(n, second),
{
    let f = |i: int| operand_actions(n, whole, i);
    let g = |i: int| operand_actions(n, first, i);
    let h = |i: int| operand_actions(n, second, i);
    let a = operand_count(first);
    let b = operand_count(second);
    assert(operand_count(whole) == a + b);
    assert forall|i: int| 0 <= i < a implies #[trigger] f(i) == g(i) by {
        lemma_operand_first(n, whole, first, second, i);
    }
    assert forall|i: int| a <= i < a + b implies #[trigger] f(i) == h(i - a) by {
        lemma_operand_second(n, whole, first, second, i);
    }
    lemma_concat_split(f, g, h, a, b);
}

#[verifier::rlimit(60)]
#[verifier::spinoff_prover]
proof fn lemma_operand_first(
    n: int,
    whole: CircuitInstruction,
    first: CircuitInstruction,
    second: CircuitInstruction,
    i: int,
)
    requires
        operands_joined(whole, first, second),
        first.qubits@.len() as int % qubits_each(whole.kind) == 0,
        whole.kind != CircuitInstructionKind::PauliProductChannel,
        0 <= i < operand_count(first),
    ensures
        operand_actions(n, whole, i) == operand_actions(n, first, i),
{
    if 3 * i + 3 <= first.qubits@.len() {
        assert(chunk(whole.qubits@, 3, i) =~= chunk(first.qubits@, 3, i));
    }
    if 2 * i + 2 <= first.qubits@.len() {
        assert(chunk(whole.qubits@, 2, i) =~= chunk(first.qubits@, 2, i));
    }
    if i + 1 <= first.qubits@.len() {
        assert(chunk(whole.qubits@, 1, i) =~= chunk(first.qubits@, 1, i));
    }
    assert(operand_actions(n, whole, i) =~= operand_actions(n, first, i));
}

#[verifier::rlimit(60)]
#[verifier::spinoff_prover]
proof fn lemma_operand_second(
    n: int,
    whole: CircuitInstruction,
    first: CircuitInstruction,
    second: CircuitInstruction,
    i: int,
)
    requires
        operands_joined(whole, first, second),
        first.qubits@.len() as int % qubits_each(whole.kind) == 0,
        whole.kind != CircuitInstructionKind::PauliProductChannel,
        operand_count(first) <= i < operand_count(first) + operand_count(second),
    ensures
        operand_actions(n, whole, i) == operand_actions(n, second, i - operand_count(first)),
{
    let j = i - operand_count(first);
    let each = qubits_each(whole.kind);
    if each == 3 && 3 * j + 3 <= second.qubits@.len() {
        assert(chunk(whole.qubits@, 3, i) =~= chunk(second.qubits@, 3, j));
    }
    if each == 2 && 2 * j + 2 <= second.qubits@.len() {
        assert(chunk(whole.qubits@, 2, i) =~= chunk(second.qubits@, 2, j));
    }
    if each == 1 && first.qubits@.len() == operand_count(first) && j + 1 <= second.qubits@.len() {
        assert(chunk(whole.qubits@, 1, i) =~= chunk(second.qubits@, 1, j));
    }
    assert(operand_actions(n, whole, i) =~= operand_actions(n, second, j));
}

// ---------------------------------------------------------------------------
// Circuits of one operand
// ---------------------------------------------------------------------------
/// The result of an operation that the outcome of a batch reports.
pub open spec fn ended_as(r: Result<BatchOutcome, SimError>) -> Result<(), SimError> {
    match r {
        Ok(_) => Ok(()),
        Err(e) => Err(e),
    }
}

/// The one record of a batch, or its error.
pub open spec fn recorded_as(r: Result<BatchOutcome, SimError>) -> Result<MeasureResult, SimError> {
    match r {
        Ok(outcome) => Ok(outcome.records@[0]),
        Err(e) => Err(e),
    }
}

/// How many records a batch made: none where it failed.
pub open spec fn records_made(r: Result<BatchOutcome, SimError>) -> int {
    match r {
        Ok(outcome) => outcome.records@.len() as int,
        Err(_) => 0,
    }
}

/// The register was widened to `n` qubits where it was smaller; nothing else changed.
pub open spec fn widened<A: Copy>(before: TableauSimulator<A>, n: int, start: TableauSimulator<A>) -> bool {
    start.after_gate(&before, n, before.grown_frame(n))
}

/// The circuit holds one instruction, of the given kind.
pub open spec fn lone(circuit: Circuit, kind: CircuitInstructionKind) -> bool {
    circuit.instructions@.len() == 1 && circuit.instructions@[0].kind == kind
}

/// One instruction led from `start` to `after` and to `r`.
spec fn did<A: Copy, K: TermKernels<A>>(
    k: &K,
    ins: Instruction,
    start: TableauSimulator<A>,
    after: TableauSimulator<A>,
    r: Result<BatchOutcome, SimError>,
) -> bool {
    match r {
        Ok(outcome) => performs(
            k,
            ins,
            start,
            Seq::<MeasureResult>::empty(),
            after,
            outcome.records@,
            outcome.expectation_values@,
            Ok(()),
        ),
        Err(e) => performs(
            k,
            ins,
            start,
            Seq::<MeasureResult>::empty(),
            after,
            Seq::<MeasureResult>::empty(),
            Seq::<u64>::empty(),
            Err(e),
        ),
    }
}

pub proof fn lemma_lone_actions(circuit: Circuit)
    requires
        circuit.instructions@.len() == 1,
        operand_count(circuit.instructions@[0]) == 1,
    ensures
        circuit_actions(circuit) == operand_actions(
            circuit.nqubits as int,
            circuit.instructions@[0],
            0,
        ),
{
    reveal_with_fuel(concat_below, 2);
    let n = circuit.nqubits as int;
    let ins = circuit.instructions@[0];
    let f = |i: int| operand_actions(n, ins, i);
    assert(concat_below(f, 1) =~= f(0));
    let g = |k: int| instruction_actions(n, circuit.instructions@[k]);
    assert(concat_below(g, 1) =~= g(0));
}

/// A circuit of one action performs it on the widened register.
proof fn lemma_lone_run<A: Copy, K: TermKernels<A>>(
    k: &K,
    circuit: Circuit,
    before: TableauSimulator<A>,
    after: TableauSimulator<A>,
    r: Result<BatchOutcome, SimError>,
) -> (found: (TableauSimulator<A>, Instruction))
    requires
        circuit_actions(circuit).len() == 1,
        circuit_ends(k, circuit, before, after, r),
    ensures
        widened(before, circuit.nqubits as int, found.0),
        found.1@ == circuit_actions(circuit)[0],
        did(k, found.1, found.0, after, r),
{
    let n = circuit.nqubits as int;
    let (program, start) = choose|program: Seq<Instruction>, start: TableauSimulator<A>|
        {
            &&& actions(program) == circuit_actions(circuit)
            &&& start.after_gate(&before, n, before.grown_frame(n))
            &&& #[trigger] batch_ends(k, program, start, after, r)
        };
    assert(actions(program).len() == 1);
    assert(program.len() == 1);
    assert(actions(program)[0] == program[0]@);
    reveal_with_fuel(batch_runs, 2);
    match r {
        Ok(outcome) => {
            let s = BatchState {
                sim: after,
                records: outcome.records@,
                values: outcome.expectation_values@,
                peak: outcome.max_rank as int,
            };
            assert(batch_runs(k, program, 1, start, s));
            let (p, made, read) = choose|
                p: BatchState<A>,
                made: Seq<MeasureResult>,
                read: Seq<u64>,
            |
                batch_runs(k, program, 0, start, p) && #[trigger] batch_step(
                    k,
                    program[0],
                    p,
                    s,
                    made,
                    read,
                );
            assert(outcome.records@ =~= made);
            assert(outcome.expectation_values@ =~= read);
        },
        Err(e) => {
            let (i, p) = choose|i: int, p: BatchState<A>|
                {
                    &&& 0 <= i < program.len()
                    &&& #[trigger] batch_runs(k, program, i, start, p)
                    &&& performs(
                        k,
                        program[i],
                        p.sim,
                        p.records,
                        after,
                        Seq::<MeasureResult>::empty(),
                        Seq::<u64>::empty(),
                        Err(e),
                    )
                };
            assert(i == 0);
        },
    }
    (start, program[0])
}

/// A circuit with a `T` on `q` leads to a state that [`TableauSimulator::t`] leads to,
/// and one with a `T†` to a state that [`TableauSimulator::t_dag`] leads to.
pub proof fn law_t_circuits_turn_by_an_eighth<A: Copy, K: TermKernels<A>>(
    k: &K,
    circuit: Circuit,
    before: TableauSimulator<A>,
    after: TableauSimulator<A>,
    r: Result<BatchOutcome, SimError>,
    q: usize,
)
    requires
        lone(circuit, CircuitInstructionKind::T) || lone(circuit, CircuitInstructionKind::TDag),
        circuit.instructions@[0].qubits@ == seq![q],
        q < circuit.nqubits,
        circuit_ends(k, circuit, before, after, r),
    ensures
        records_made(r) == 0,
        lone(circuit, CircuitInstructionKind::T) ==> exists|
            start: TableauSimulator<A>,
            mid: TableauSimulator<A>,
        |
            widened(before, circuit.nqubits as int, start) && #[trigger] rotates_on(
                k,
                start,
                PauliBasis::Z,
                q as int,
                (Turn::Eighth { adjoint: false }),
                mid,
                ended_as(r),
            ) && after.after_gate(&mid, q + 1, mid.core.r@),
        lone(circuit, CircuitInstructionKind::TDag) ==> exists|
            start: TableauSimulator<A>,
            mid: TableauSimulator<A>,
        |
            widened(before, circuit.nqubits as int, start) && #[trigger] rotates_on(
                k,
                start,
                PauliBasis::Z,
                q as int,
                (Turn::Eighth { adjoint: true }),
                mid,
                ended_as(r),
            ) && after.after_gate(&mid, q + 1, mid.core.r@),
{
    let n = circuit.nqubits as int;
    let adjoint = circuit.instructions@[0].kind == CircuitInstructionKind::TDag;
    lemma_lone_actions(circuit);
    let (wide, ins) = lemma_lone_run(k, circuit, before, after, r);
    assert(ins@ == (Action::T { basis: PauliBasis::Z, qubit: q, adjoint }));
    assert(ins == (Instruction::T { basis: PauliBasis::Z, qubit: q, adjoint }));
    assert(rotates_basis(k, wide, PauliBasis::Z, q as int, adjoint, after, ended_as(r)));
    let (start, mid) = choose|start: TableauSimulator<A>, mid: TableauSimulator<A>|
        {
            &&& start.after_gate(&wide, q + 1, wide.grown_frame(q + 1))
            &&& #[trigger] rotates_on(
                k,
                start,
                PauliBasis::Z,
                q as int,
                (Turn::Eighth { adjoint }),
                mid,
                ended_as(r),
            )
            &&& after.after_gate(&mid, q + 1, mid.core.r@)
        };
    lemma_same_terms_chain(start.terms@, wide.terms@, before.terms@);
    assert(widened(before, n, start));
    if !adjoint {
        assert(rotates_on(
            k,
            start,
            PauliBasis::Z,
            q as int,
            (Turn::Eighth { adjoint: false }),
            mid,
            ended_as(r),
        ));
    } else {
        assert(rotates_on(
            k,
            start,
            PauliBasis::Z,
            q as int,
            (Turn::Eighth { adjoint: true }),
            mid,
            ended_as(r),
        ));
    }
}

/// `op`, negated where the operand is marked as inverted.
pub open spec fn signed_op(op: PauliOp, inverted: bool) -> PauliOp {
    if inverted {
        op.shifted(2)
    } else {
        op
    }
}

/// A circuit with a rotation about a product turns about that product, negated where
/// it is inverted, by the instruction's angle. An angle that is no number is refused.
pub proof fn law_rotation_circuits_turn_about_their_product<A: Copy, K: TermKernels<A>>(
    k: &K,
    circuit: Circuit,
    before: TableauSimulator<A>,
    after: TableauSimulator<A>,
    r: Result<BatchOutcome, SimError>,
)
    requires
        lone(circuit, CircuitInstructionKind::PauliRotation),
        circuit.instructions@[0].pauli_products@.len() == 1,
        circuit_ends(k, circuit, before, after, r),
    ensures
        records_made(r) == 0,
        ({
            let ins = circuit.instructions@[0];
            let product = ins.pauli_products@[0];
            exists|start: TableauSimulator<A>, axis: PauliString|
                {
                    &&& #[trigger] axis.op() == signed_op(product.pauli.op(), product.inverted)
                    &&& #[trigger] widened(before, circuit.nqubits as int, start)
                    &&& if is_finite(ins.kernel_angle) {
                        rotates(
                            k,
                            start,
                            axis,
                            (Turn::Angle { kernel_angle: ins.kernel_angle }),
                            after,
                            ended_as(r),
                        )
                    } else {
                        after == start && ended_as(r) == Err::<(), SimError>(
                            SimError::InvalidRotationAngle(ins.kernel_angle),
                        )
                    }
                }
        }),
{
    lemma_lone_actions(circuit);
    let (start, ins) = lemma_lone_run(k, circuit, before, after, r);
    let axis = match ins {
        Instruction::PauliRotation { axis, kernel_angle } => axis,
        _ => arbitrary(),
    };
    assert(widened(before, circuit.nqubits as int, start));
    let product = circuit.instructions@[0].pauli_products@[0];
    assert(axis.op() == signed_op(product.pauli.op(), product.inverted));
}

// ---------------------------------------------------------------------------
// Measurements, resets and reads
// ---------------------------------------------------------------------------
/// The kinds that measure an axis of one qubit, and leave it at that.
pub open spec fn measured_axis(kind: CircuitInstructionKind) -> Option<PauliBasis> {
    match kind {
        CircuitInstructionKind::MX => Some(PauliBasis::X),
        CircuitInstructionKind::MY => Some(PauliBasis::Y),
        CircuitInstructionKind::MZ => Some(PauliBasis::Z),
        _ => None,
    }
}

/// The kinds that measure an axis of one qubit and then reset the qubit to it.
pub open spec fn measured_and_reset_axis(kind: CircuitInstructionKind) -> Option<PauliBasis> {
    match kind {
        CircuitInstructionKind::Mrx => Some(PauliBasis::X),
        CircuitInstructionKind::Mry => Some(PauliBasis::Y),
        CircuitInstructionKind::Mrz => Some(PauliBasis::Z),
        _ => None,
    }
}

/// The kinds that reset a qubit to an axis.
pub open spec fn reset_axis(kind: CircuitInstructionKind) -> Option<PauliBasis> {
    match kind {
        CircuitInstructionKind::RX => Some(PauliBasis::X),
        CircuitInstructionKind::RY => Some(PauliBasis::Y),
        CircuitInstructionKind::RZ => Some(PauliBasis::Z),
        _ => None,
    }
}

/// A measurement circuit makes one record: of the axis of its kind at its qubit,
/// negated where the target is inverted, behind a readout that flips with the
/// instruction's probability.
pub proof fn law_measurement_circuits_measure_their_axis<A: Copy, K: TermKernels<A>>(
    k: &K,
    circuit: Circuit,
    before: TableauSimulator<A>,
    after: TableauSimulator<A>,
    r: Result<BatchOutcome, SimError>,
)
    requires
        circuit.instructions@.len() == 1,
        measured_axis(circuit.instructions@[0].kind) is Some,
        circuit.instructions@[0].measurement_targets@.len() == 1,
        circuit_ends(k, circuit, before, after, r),
    ensures
        r is Ok ==> records_made(r) == 1,
        ({
            let ins = circuit.instructions@[0];
            let target = ins.measurement_targets@[0];
            let axis = measured_axis(ins.kind)->0;
            exists|start: TableauSimulator<A>, observable: PauliString|
                {
                    &&& widened(before, circuit.nqubits as int, start)
                    &&& observable.op() == signed_op(
                        axis_op(circuit.nqubits as int, axis, target.qubit as int),
                        target.inverted,
                    )
                    &&& #[trigger] reads_out(
                        k,
                        start,
                        observable,
                        ins.probability,
                        after,
                        recorded_as(r),
                    )
                }
        }),
{
    lemma_lone_actions(circuit);
    let (start, ins) = lemma_lone_run(k, circuit, before, after, r);
    let c = circuit.instructions@[0];
    let target = c.measurement_targets@[0];
    let observable = match ins {
        Instruction::MeasureWithReadoutError { observable, probability } => observable,
        _ => arbitrary(),
    };
    assert(measured_axis(c.kind)->0.letter().has_x() == measured_axis(c.kind)->0.has_x());
    assert(measured_axis(c.kind)->0.letter().has_z() == measured_axis(c.kind)->0.has_z());
    assert(crate::instruction::letter_op(
        circuit.nqubits as int,
        target.qubit as int,
        measured_axis(c.kind)->0.letter(),
    ) =~= axis_op(circuit.nqubits as int, measured_axis(c.kind)->0, target.qubit as int));
    assert(reads_out(k, start, observable, c.probability, after, recorded_as(r)));
}

/// A circuit that resets a qubit does what a reset to the axis of its kind does.
pub proof fn law_reset_circuits_reset_to_their_axis<A: Copy, K: TermKernels<A>>(
    k: &K,
    circuit: Circuit,
    before: TableauSimulator<A>,
    after: TableauSimulator<A>,
    r: Result<BatchOutcome, SimError>,
)
    requires
        circuit.instructions@.len() == 1,
        reset_axis(circuit.instructions@[0].kind) is Some,
        circuit.instructions@[0].qubits@.len() == 1,
        circuit_ends(k, circuit, before, after, r),
    ensures
        records_made(r) == 0,
        ({
            let ins = circuit.instructions@[0];
            exists|start: TableauSimulator<A>|
                widened(before, circuit.nqubits as int, start) && #[trigger] resets(
                    k,
                    start,
                    reset_axis(ins.kind)->0,
                    ins.qubits@[0] as int,
                    after,
                    ended_as(r),
                )
        }),
{
    lemma_lone_actions(circuit);
    let (start, ins) = lemma_lone_run(k, circuit, before, after, r);
    let c = circuit.instructions@[0];
    assert(ins == (Instruction::Reset { basis: reset_axis(c.kind)->0, qubit: c.qubits@[0] }));
    assert(resets(k, start, reset_axis(c.kind)->0, c.qubits@[0] as int, after, ended_as(r)));
}

/// A circuit that measures a product makes one record of it, and one that reads a
/// product reads its expectation and changes nothing; both negate an inverted product.
pub proof fn law_product_circuits_take_their_product<A: Copy, K: TermKernels<A>>(
    k: &K,
    circuit: Circuit,
    before: TableauSimulator<A>,
    after: TableauSimulator<A>,
    r: Result<BatchOutcome, SimError>,
)
    requires
        lone(circuit, CircuitInstructionKind::Mpp) || lone(circuit, CircuitInstructionKind::ExpVal),
        circuit.instructions@[0].pauli_products@.len() == 1,
        circuit_ends(k, circuit, before, after, r),
    ensures
        ({
            let ins = circuit.instructions@[0];
            let product = ins.pauli_products@[0];
            exists|start: TableauSimulator<A>, observable: PauliString|
                {
                    &&& #[trigger] widened(before, circuit.nqubits as int, start)
                    &&& #[trigger] observable.op() == signed_op(
                        product.pauli.op(),
                        product.inverted,
                    )
                    &&& if ins.kind == CircuitInstructionKind::Mpp {
                        &&& r is Ok ==> records_made(r) == 1
                        &&& reads_out(k, start, observable, ins.probability, after, recorded_as(r))
                    } else {
                        &&& after == start
                        &&& records_made(r) == 0
                        &&& match r {
                            Ok(outcome) => outcome.expectation_values@.len() == 1 && peeks(
                                k,
                                start,
                                observable,
                                Ok(outcome.expectation_values@[0]),
                            ),
                            Err(e) => peeks(k, start, observable, Err(e)),
                        }
                    }
                }
        }),
{
    lemma_lone_actions(circuit);
    let (start, ins) = lemma_lone_run(k, circuit, before, after, r);
    let c = circuit.instructions@[0];
    let product = c.pauli_products@[0];
    let observable = match ins {
        Instruction::MeasureWithReadoutError { observable, probability } => observable,
        Instruction::Expectation(observable) => observable,
        _ => arbitrary(),
    };
    assert(observable.op() == signed_op(product.pauli.op(), product.inverted));
    assert(widened(before, circuit.nqubits as int, start));
}

/// The value that a padding target names.
pub open spec fn padded_value(target: MeasurementTarget) -> bool {
    if target.qubit == 0 {
        target.inverted
    } else {
        !target.inverted
    }
}

/// A padding circuit records the value that its target names: set for a target other
/// than zero, and the other way round for an inverted one.
pub proof fn law_padding_circuits_record_their_value<A: Copy, K: TermKernels<A>>(
    k: &K,
    circuit: Circuit,
    before: TableauSimulator<A>,
    after: TableauSimulator<A>,
    r: Result<BatchOutcome, SimError>,
)
    requires
        lone(circuit, CircuitInstructionKind::MPad),
        circuit.instructions@[0].measurement_targets@.len() == 1,
        circuit_ends(k, circuit, before, after, r),
    ensures
        r is Ok ==> records_made(r) == 1,
        ({
            let ins = circuit.instructions@[0];
            let target = ins.measurement_targets@[0];
            let value = padded_value(target);
            exists|start: TableauSimulator<A>|
                widened(before, circuit.nqubits as int, start) && #[trigger] records_value(
                    k,
                    start,
                    value,
                    ins.probability,
                    after,
                    recorded_as(r),
                )
        }),
{
    lemma_lone_actions(circuit);
    let (start, ins) = lemma_lone_run(k, circuit, before, after, r);
    let c = circuit.instructions@[0];
    let target = c.measurement_targets@[0];
    let value = padded_value(target);
    assert(ins == (Instruction::Record { value, flip_probability: c.probability }));
    assert(records_value(k, start, value, c.probability, after, recorded_as(r)));
}

/// A circuit without operands, a tick among them, leaves everything but the width of
/// the register as it was.
pub proof fn law_empty_circuits_change_nothing<A: Copy, K: TermKernels<A>>(
    k: &K,
    circuit: Circuit,
    before: TableauSimulator<A>,
    after: TableauSimulator<A>,
    r: Result<BatchOutcome, SimError>,
)
    requires
        circuit.instructions@.len() == 0 || lone(circuit, CircuitInstructionKind::Tick),
        circuit_ends(k, circuit, before, after, r),
    ensures
        widened(before, circuit.nqubits as int, after),
        r is Ok,
        records_made(r) == 0,
{
    reveal_with_fuel(concat_below, 2);
    let n = circuit.nqubits as int;
    if circuit.instructions@.len() == 1 {
        let f = |i: int| operand_actions(n, circuit.instructions@[0], i);
        assert(concat_below(f, 0) =~= Seq::empty());
        let g = |k: int| instruction_actions(n, circuit.instructions@[k]);
        assert(g(0) =~= Seq::empty());
        assert(concat_below(g, 1) =~= Seq::empty());
    }
    assert(circuit_actions(circuit) =~= Seq::empty());
    let (program, start) = choose|program: Seq<Instruction>, start: TableauSimulator<A>|
        {
            &&& actions(program) == circuit_actions(circuit)
            &&& start.after_gate(&before, n, before.grown_frame(n))
            &&& #[trigger] batch_ends(k, program, start, after, r)
        };
    assert(actions(program).len() == 0);
    assert(program.len() == 0);
}

/// A circuit that measures a qubit and resets it makes one record of the axis of its
/// kind, and then does what a reset to that axis does.
#[verifier::rlimit(60)]
#[verifier::spinoff_prover]
pub proof fn law_measured_and_reset_in_this_order<A: Copy, K: TermKernels<A>>(
    k: &K,
    circuit: Circuit,
    before: TableauSimulator<A>,
    after: TableauSimulator<A>,
    outcome: BatchOutcome,
)
    requires
        circuit.instructions@.len() == 1,
        measured_and_reset_axis(circuit.instructions@[0].kind) is Some,
        circuit.instructions@[0].measurement_targets@.len() == 1,
        circuit_ends(k, circuit, before, after, Ok(outcome)),
    ensures
        outcome.records@.len() == 1,
        ({
            let ins = circuit.instructions@[0];
            let target = ins.measurement_targets@[0];
            let axis = measured_and_reset_axis(ins.kind)->0;
            exists|start: TableauSimulator<A>, observable: PauliString, mid: TableauSimulator<A>|
                {
                    &&& widened(before, circuit.nqubits as int, start)
                    &&& observable.op() == signed_op(
                        axis_op(circuit.nqubits as int, axis, target.qubit as int),
                        target.inverted,
                    )
                    &&& #[trigger] reads_out(
                        k,
                        start,
                        observable,
                        ins.probability,
                        mid,
                        Ok(outcome.records@[0]),
                    )
                    &&& resets(k, mid, axis, target.qubit as int, after, Ok(()))
                }
        }),
{
    lemma_lone_actions(circuit);
    let n = circuit.nqubits as int;
    let c = circuit.instructions@[0];
    let target = c.measurement_targets@[0];
    let axis = measured_and_reset_axis(c.kind)->0;
    let acts = circuit_actions(circuit);
    assert(axis.letter().has_x() == axis.has_x() && axis.letter().has_z() == axis.has_z());
    assert(crate::instruction::letter_op(n, target.qubit as int, axis.letter()) =~= axis_op(
        n,
        axis,
        target.qubit as int,
    ));
    let (program, start) = choose|program: Seq<Instruction>, start: TableauSimulator<A>|
        {
            &&& actions(program) == circuit_actions(circuit)
            &&& start.after_gate(&before, n, before.grown_frame(n))
            &&& #[trigger] batch_ends::<A, K>(k, program, start, after, Ok(outcome))
        };
    assert(actions(program).len() == 2);
    assert(program.len() == 2);
    assert(actions(program)[0] == program[0]@);
    assert(actions(program)[1] == program[1]@);
    reveal_with_fuel(batch_runs, 3);
    let s = BatchState {
        sim: after,
        records: outcome.records@,
        values: outcome.expectation_values@,
        peak: outcome.max_rank as int,
    };
    assert(batch_runs(k, program, 2, start, s));
    let (p, made, read) = choose|p: BatchState<A>, made: Seq<MeasureResult>, read: Seq<u64>|
        batch_runs(k, program, 1, start, p) && #[trigger] batch_step(
            k,
            program[1],
            p,
            s,
            made,
            read,
        );
    let (p0, made0, read0) = choose|p0: BatchState<A>, made: Seq<MeasureResult>, read: Seq<u64>|
        batch_runs(k, program, 0, start, p0) && #[trigger] batch_step(
            k,
            program[0],
            p0,
            p,
            made,
            read,
        );
    assert(p.records =~= made0);
    assert(program[1] == (Instruction::Reset { basis: axis, qubit: target.qubit }));
    assert(outcome.records@ =~= made0);
    let observable = match program[0] {
        Instruction::MeasureWithReadoutError { observable, probability } => observable,
        _ => arbitrary(),
    };
    assert(reads_out(k, start, observable, c.probability, p.sim, Ok(outcome.records@[0])));
}

// ---------------------------------------------------------------------------
// Feedback
// ---------------------------------------------------------------------------
/// The kinds that correct a qubit by a record.
pub open spec fn feedback_axis(kind: CircuitInstructionKind) -> Option<PauliBasis> {
    match kind {
        CircuitInstructionKind::FeedbackX => Some(PauliBasis::X),
        CircuitInstructionKind::FeedbackY => Some(PauliBasis::Y),
        CircuitInstructionKind::FeedbackZ => Some(PauliBasis::Z),
        _ => None,
    }
}

/// The Pauli of one axis negates the preimages of the operators of that qubit with which
/// it anticommutes, and of no other.
pub open spec fn flipped_by(t: Seq<PauliOp>, axis: PauliBasis, q: int, u: Seq<PauliOp>) -> bool {
    &&& u.len() == t.len()
    &&& forall|row: int|
        0 <= row < t.len() ==> #[trigger] u[row] == if row / 2 == q && !(axis == PauliBasis::X && row % 2
            == 0) && !(axis == PauliBasis::Z && row % 2 == 1) {
            t[row].shifted(2)
        } else {
            t[row]
        }
}

/// Feedback applies the Pauli of its kind to its qubit exactly where the record that it
/// names, counted from one, was set. It changes nothing where the record was clear, and
/// is refused where there is no such record yet.
pub proof fn law_feedback_follows_its_record<A: Copy, K: TermKernels<A>>(
    k: &K,
    n: int,
    circuit_ins: CircuitInstruction,
    i: int,
    ins: Instruction,
    before: TableauSimulator<A>,
    records: Seq<MeasureResult>,
    after: TableauSimulator<A>,
    made: Seq<MeasureResult>,
    read: Seq<u64>,
    r: Result<(), SimError>,
)
    requires
        feedback_axis(circuit_ins.kind) is Some,
        0 <= i < circuit_ins.feedback_targets@.len(),
        circuit_ins.feedback_targets@[i].record > 0,
        seq![ins@] == operand_actions(n, circuit_ins, i),
        performs(k, ins, before, records, after, made, read, r),
        before.wf(),
        circuit_ins.feedback_targets@[i].qubit < before.core.n,
    ensures
        made.len() == 0,
        ({
            let target = circuit_ins.feedback_targets@[i];
            let axis = feedback_axis(circuit_ins.kind)->0;
            if target.record > records.len() {
                &&& after == before
                &&& r == Err::<(), SimError>(
                    SimError::MissingBatchRecord { index: (target.record - 1) as usize },
                )
            } else if records[target.record - 1].outcome {
                &&& r is Ok
                &&& after.same_state(&before)
                &&& flipped_by(before.core.r@, axis, target.qubit as int, after.core.r@)
            } else {
                r is Ok && after == before
            }
        }),
{
    let target = circuit_ins.feedback_targets@[i];
    let axis = feedback_axis(circuit_ins.kind)->0;
    assert(seq![ins@][0] == operand_actions(n, circuit_ins, i)[0]);
    assert(ins == (Instruction::ConditionalPauli {
        basis: axis,
        qubit: target.qubit,
        control: (target.record - 1) as usize,
    }));
    let q = target.qubit as int;
    let t = before.core.r@;
    assert(t.len() == 2 * before.core.n);
}

// ---------------------------------------------------------------------------
// Channels
// ---------------------------------------------------------------------------
/// The kinds that apply one Pauli with a probability.
pub open spec fn error_axis(kind: CircuitInstructionKind) -> Option<PauliBasis> {
    match kind {
        CircuitInstructionKind::XError => Some(PauliBasis::X),
        CircuitInstructionKind::YError => Some(PauliBasis::Y),
        CircuitInstructionKind::ZError => Some(PauliBasis::Z),
        _ => None,
    }
}

/// An error circuit draws one alternative, the Pauli of its kind at its qubit, with the
/// instruction's probability, and makes no record.
pub proof fn law_error_circuits_draw_their_pauli<A: Copy, K: TermKernels<A>>(
    k: &K,
    circuit: Circuit,
    before: TableauSimulator<A>,
    after: TableauSimulator<A>,
    r: Result<BatchOutcome, SimError>,
)
    requires
        circuit.instructions@.len() == 1,
        error_axis(circuit.instructions@[0].kind) is Some,
        circuit.instructions@[0].qubits@.len() == 1,
        circuit_ends(k, circuit, before, after, r),
    ensures
        records_made(r) == 0,
        ({
            let ins = circuit.instructions@[0];
            exists|start: TableauSimulator<A>, shares: Seq<Share>, alternatives: Seq<PauliString>|
                {
                    &&& widened(before, circuit.nqubits as int, start)
                    &&& shares.len() == 1
                    &&& shares[0].bits == ins.probability
                    &&& shares[0].parts == 1
                    &&& alternatives.len() == 1
                    &&& alternatives[0].op() == axis_op(
                        circuit.nqubits as int,
                        error_axis(ins.kind)->0,
                        ins.qubits@[0] as int,
                    )
                    &&& #[trigger] draws_pauli(
                        k,
                        start,
                        shares,
                        alternatives,
                        false,
                        after,
                        Seq::<MeasureResult>::empty(),
                        ended_as(r),
                    )
                }
        }),
{
    lemma_lone_actions(circuit);
    let (start, ins) = lemma_lone_run(k, circuit, before, after, r);
    let c = circuit.instructions@[0];
    let axis = error_axis(c.kind)->0;
    let n = circuit.nqubits as int;
    let q = c.qubits@[0] as int;
    assert(axis.letter().has_x() == axis.has_x() && axis.letter().has_z() == axis.has_z());
    assert(crate::instruction::letter_op(n, q, axis.letter()) =~= axis_op(n, axis, q));
    let (shares, alternatives) = match ins {
        Instruction::RandomPauli { probabilities, alternatives, heralded } => (
            probabilities@,
            alternatives@,
        ),
        _ => arbitrary(),
    };
    assert(ins@ is RandomPauli);
    assert(ins is RandomPauli);
    assert(ops(alternatives) == seq![axis_op(n, axis, q)]);
    assert(ops(alternatives)[0] == alternatives[0].op());
    if r is Ok {
        assert(r->Ok_0.records@ =~= Seq::<MeasureResult>::empty());
    }
    assert(draws_pauli(
        k,
        start,
        shares,
        alternatives,
        false,
        after,
        Seq::<MeasureResult>::empty(),
        ended_as(r),
    ));
}

/// The letter of an operator at a qubit, as a number: 0 for the identity, then X, Y, Z.
pub open spec fn letter_at(op: PauliOp, q: int) -> int {
    if op.x[q] && op.z[q] {
        2
    } else if op.x[q] {
        1
    } else if op.z[q] {
        3
    } else {
        0
    }
}

/// How many of the first `m` qubits hold a `Y`.
pub open spec fn ys_below(op: PauliOp, m: int) -> int
    decreases m,
{
    if m <= 0 {
        0
    } else {
        ys_below(op, m - 1) + bit01(op.x[m - 1] && op.z[m - 1])
    }
}

/// A product of letters on `n` qubits, without a sign: each `Y` is `i` times `XZ`.
pub open spec fn letters_product(op: PauliOp, n: int) -> bool {
    op.on(n) && op.phase == ys_below(op, n) % 4
}

/// No two entries name the same qubit, and all lie below `n`.
pub open spec fn distinct_qubits(qubits: Seq<usize>, n: int) -> bool {
    &&& forall|i: int| 0 <= i < qubits.len() ==> (#[trigger] qubits[i]) < n
    &&& forall|i: int, j: int|
        0 <= i < j < qubits.len() ==> #[trigger] qubits[i] != #[trigger] qubits[j]
}

proof fn lemma_ys_update(op: PauliOp, n: int, q: int, letter: crate::pauli::Pauli, m: int)
    requires
        op.on(n),
        0 <= q < n,
        0 <= m <= n,
    ensures
        ys_below(with_letter(op, q, letter), m) == ys_below(op, m) + if q < m {
            bit01(letter == crate::pauli::Pauli::Y) - bit01(op.x[q] && op.z[q])
        } else {
            0
        },
    decreases m,
{
    if m > 0 {
        lemma_ys_update(op, n, q, letter, m - 1);
    }
}

/// The operator of a code is a product of letters: digit `k` of the code at the qubit
/// that is `k` from the end of the list, and the identity everywhere else.
proof fn lemma_code_letters(n: int, qubits: Seq<usize>, code: int, k: int)
    requires
        distinct_qubits(qubits, n),
        0 <= k <= qubits.len() <= 3,
        0 <= code,
        0 <= n,
    ensures
        letters_product(code_op(n, qubits, code, k), n),
        forall|i: int|
            0 <= i < k ==> letter_at(
                code_op(n, qubits, code, k),
                (#[trigger] qubits[qubits.len() - 1 - i]) as int,
            ) == code_digit(code, i),
        forall|q: int|
            0 <= q < n && (forall|i: int| 0 <= i < k ==> q != #[trigger] qubits[qubits.len() - 1 - i])
                ==> #[trigger] letter_at(code_op(n, qubits, code, k), q) == 0,
    decreases k,
{
    if k > 0 {
        lemma_code_letters(n, qubits, code, k - 1);
        let prev = code_op(n, qubits, code, k - 1);
        let at = qubits[qubits.len() - k] as int;
        let digit = code_digit(code, k - 1);
        assert(0 <= digit < 4);
        lemma_ys_update(prev, n, at, digit_letter(digit), n);
        let op = code_op(n, qubits, code, k);
        assert(op == with_letter(prev, at, digit_letter(digit)));
        assert(qubits[qubits.len() - 1 - (k - 1)] == at);
        assert forall|i: int| 0 <= i < k implies letter_at(
            op,
            (#[trigger] qubits[qubits.len() - 1 - i]) as int,
        ) == code_digit(code, i) by {
            if i < k - 1 {
                assert(qubits[qubits.len() - k] != qubits[qubits.len() - 1 - i]);
                assert(letter_at(prev, qubits[qubits.len() - 1 - i] as int) == code_digit(code, i));
            }
        }
        assert forall|q: int|
            0 <= q < n && (forall|i: int| 0 <= i < k ==> q != #[trigger] qubits[qubits.len() - 1 - i]) implies #[trigger] letter_at(
            op,
            q,
        ) == 0 by {
            assert(q != at);
            assert(letter_at(prev, q) == 0);
        }
    } else {
        lemma_no_ys(crate::pauli::identity_op(n), n);
    }
}

proof fn lemma_no_ys(op: PauliOp, m: int)
    requires
        forall|i: int| 0 <= i < m ==> !(#[trigger] op.x[i]),
    ensures
        ys_below(op, m) == 0,
    decreases m,
{
    if m > 0 {
        lemma_no_ys(op, m - 1);
    }
}

/// Alternative `i` of a channel on some qubits is the product of letters that the number
/// `i + 1` spells in base four, the last qubit taking the lowest digit: so each product
/// but the identity is an alternative exactly once, in the order I, X, Y, Z.
pub proof fn law_channels_list_every_product_once(n: int, qubits: Seq<usize>, i: int, j: int)
    requires
        distinct_qubits(qubits, n),
        1 <= qubits.len() <= 3,
        0 <= n,
        0 <= i < channel_ops(n, qubits).len(),
        0 <= j < channel_ops(n, qubits).len(),
    ensures
        qubits.len() == 1 ==> channel_ops(n, qubits).len() == 3,
        qubits.len() == 2 ==> channel_ops(n, qubits).len() == 15,
        qubits.len() == 3 ==> channel_ops(n, qubits).len() == 63,
        ({
            let op = channel_ops(n, qubits)[i];
            let last = letter_at(op, qubits[qubits.len() - 1] as int);
            &&& letters_product(op, n)
            &&& qubits.len() == 1 ==> i + 1 == last
            &&& qubits.len() == 2 ==> i + 1 == 4 * letter_at(op, qubits[0] as int) + last
            &&& qubits.len() == 3 ==> i + 1 == 16 * letter_at(op, qubits[0] as int) + 4 * letter_at(
                op,
                qubits[1] as int,
            ) + last
            &&& forall|q: int|
                0 <= q < n && !qubits.contains(q as usize) ==> #[trigger] letter_at(op, q) == 0
        }),
        i != j ==> channel_ops(n, qubits)[i] != channel_ops(n, qubits)[j],
{
    let len = qubits.len() as int;
    lemma_code_letters(n, qubits, i + 1, len);
    lemma_code_letters(n, qubits, j + 1, len);
    let op = channel_ops(n, qubits)[i];
    let other = channel_ops(n, qubits)[j];
    assert(op == code_op(n, qubits, i + 1, len));
    assert(other == code_op(n, qubits, j + 1, len));
    assert(letter_at(op, qubits[len - 1 - 0] as int) == code_digit(i + 1, 0));
    assert(letter_at(other, qubits[len - 1 - 0] as int) == code_digit(j + 1, 0));
    if len >= 2 {
        assert(letter_at(op, qubits[len - 1 - 1] as int) == code_digit(i + 1, 1));
        assert(letter_at(other, qubits[len - 1 - 1] as int) == code_digit(j + 1, 1));
    }
    if len >= 3 {
        assert(letter_at(op, qubits[len - 1 - 2] as int) == code_digit(i + 1, 2));
        assert(letter_at(other, qubits[len - 1 - 2] as int) == code_digit(j + 1, 2));
    }
    assert forall|q: int| 0 <= q < n && !qubits.contains(q as usize) implies #[trigger] letter_at(
        op,
        q,
    ) == 0 by {
        assert forall|m: int| 0 <= m < len implies q != #[trigger] qubits[len - 1 - m] by {
            if q == qubits[len - 1 - m] {
                assert(qubits[len - 1 - m] == q as usize);
            }
        }
    }
}

/// A channel kind draws among the products on each of its chunks of qubits: with the
/// instruction's own probabilities, or, when it depolarizes, with its probability shared
/// out evenly among them all.
pub proof fn law_channels_draw_among_their_products(n: int, ins: CircuitInstruction, i: int)
    requires
        0 <= i < operand_count(ins),
        ins.kind == CircuitInstructionKind::Depolarize1 || ins.kind
            == CircuitInstructionKind::Depolarize2 || ins.kind == CircuitInstructionKind::Depolarize3
            || ins.kind == CircuitInstructionKind::PauliChannel1 || ins.kind
            == CircuitInstructionKind::PauliChannel2 || ins.kind
            == CircuitInstructionKind::PauliChannel3,
    ensures
        ({
            let each = qubits_each(ins.kind);
            let acts = operand_actions(n, ins, i);
            let group = Seq::new(each as nat, |m: int| ins.qubits@[each * i + m]);
            let even = ins.kind == CircuitInstructionKind::Depolarize1 || ins.kind
                == CircuitInstructionKind::Depolarize2 || ins.kind
                == CircuitInstructionKind::Depolarize3;
            &&& acts.len() == 1
            &&& acts[0] is RandomPauli
            &&& !acts[0]->heralded
            &&& acts[0]->alternatives == channel_ops(n, group)
            &&& even ==> acts[0]->probabilities.len() == acts[0]->alternatives.len() && forall|m: int|
                0 <= m < acts[0]->probabilities.len() ==> (#[trigger] acts[0]->probabilities[m]).bits
                    == ins.probability && acts[0]->probabilities[m].parts
                    == acts[0]->alternatives.len()
            &&& !even ==> acts[0]->probabilities.len() == ins.probabilities@.len() && forall|m: int|
                0 <= m < ins.probabilities@.len() ==> (#[trigger] acts[0]->probabilities[m]).bits
                    == ins.probabilities@[m] && acts[0]->probabilities[m].parts == 1
        }),
{
    let each = qubits_each(ins.kind);
    let group = Seq::new(each as nat, |m: int| ins.qubits@[each * i + m]);
    assert(chunk(ins.qubits@, each, i) =~= group);
}

/// A heralded kind draws among the identity, X, Y and Z on its qubit, and records whether
/// one of them fired: an erasure with its probability shared out evenly, a heralded
/// channel with the instruction's own four.
pub proof fn law_heralded_channels_draw_among_the_letters(n: int, ins: CircuitInstruction, i: int)
    requires
        0 <= i < ins.qubits@.len(),
        ins.qubits@[i] < n,
        ins.kind == CircuitInstructionKind::HeraldedErase || ins.kind
            == CircuitInstructionKind::HeraldedPauliChannel1,
    ensures
        ({
            let acts = operand_actions(n, ins, i);
            &&& acts.len() == 1
            &&& acts[0] is RandomPauli
            &&& acts[0]->heralded
            &&& acts[0]->alternatives.len() == 4
            &&& forall|m: int|
                0 <= m < 4 ==> letters_product(#[trigger] acts[0]->alternatives[m], n) && letter_at(
                    acts[0]->alternatives[m],
                    ins.qubits@[i] as int,
                ) == m && forall|q: int|
                    0 <= q < n && q != ins.qubits@[i] ==> #[trigger] letter_at(
                        acts[0]->alternatives[m],
                        q,
                    ) == 0
            &&& ins.kind == CircuitInstructionKind::HeraldedErase ==> acts[0]->probabilities
                =~= Seq::new(4, |m: int| Share { bits: ins.probability, parts: 4 })
            &&& ins.kind == CircuitInstructionKind::HeraldedPauliChannel1 ==> acts[0]->probabilities
                =~= Seq::new(
                ins.probabilities@.len(),
                |m: int| Share { bits: ins.probabilities@[m], parts: 1 },
            )
        }),
{
    let acts = operand_actions(n, ins, i);
    let qubits = seq![ins.qubits@[i]];
    assert forall|m: int| 0 <= m < 4 implies letters_product(#[trigger] acts[0]->alternatives[m], n)
        && letter_at(acts[0]->alternatives[m], ins.qubits@[i] as int) == m && forall|q: int|
        0 <= q < n && q != ins.qubits@[i] ==> #[trigger] letter_at(acts[0]->alternatives[m], q) == 0 by {
        let op = code_op(n, qubits, m, 1);
        assert(acts[0]->alternatives[m] == op);
        lemma_code_letters(n, qubits, m, 1);
        assert(letter_at(op, qubits[1 - 1 - 0] as int) == code_digit(m, 0));
        assert forall|q: int| 0 <= q < n && q != ins.qubits@[i] implies #[trigger] letter_at(op, q) == 0 by {
            assert forall|x: int| 0 <= x < 1 implies q != #[trigger] qubits[1 - 1 - x] by {}
        }
    }
}

/// A channel over products has one alternative for each product, negated where it is
/// inverted, with the probability at the same place.
pub proof fn law_product_channels_draw_their_products(n: int, ins: CircuitInstruction, m: int)
    requires
        ins.kind == CircuitInstructionKind::PauliProductChannel,
        0 <= m < ins.pauli_products@.len(),
        0 <= m < ins.probabilities@.len(),
    ensures
        ({
            let acts = operand_actions(n, ins, 0);
            let product = ins.pauli_products@[m];
            &&& acts.len() == 1
            &&& acts[0] is RandomPauli
            &&& !acts[0]->heralded
            &&& acts[0]->alternatives.len() == ins.pauli_products@.len()
            &&& acts[0]->alternatives[m] == signed_op(product.pauli.op(), product.inverted)
            &&& acts[0]->probabilities.len() == ins.probabilities@.len()
            &&& acts[0]->probabilities[m] == (Share { bits: ins.probabilities@[m], parts: 1 })
        }),
{
}

} // verus!
