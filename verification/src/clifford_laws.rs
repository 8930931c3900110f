//! What the Clifford instructions of a circuit do to the axes of their qubits.
use vstd::prelude::*;
use crate::batch::{
    batch_ends, batch_runs, batch_step, circuit_ends, performs, BatchOutcome, BatchState,
};
use crate::circuit_laws::{lemma_lone_actions, records_made};
use crate::evolve::{MeasureResult, TermKernels};
use crate::frame::{
    tableau_controlled, tableau_cx, tableau_cz, tableau_h, tableau_root_x, tableau_root_z,
    tableau_swap,
};
use crate::frame_laws::{clifford, law_cx, law_cz, law_h, law_root_x, law_root_z};
use crate::gates::{
    axis_op, axis_row, axis_selects, law_cx_is_gate2, law_gate1, law_gate1_matches_images,
    law_gate2_is_a_controlled_pauli, tableau_gate1, tableau_gate2, Gate1Q,
};
use crate::instruction::{
    actions, circuit_actions, cx_action, cz_action, gate1_action, is_pair_kind, operand_count,
    pair_actions, sqrt_pair_actions, sqrt_zz_actions, swap_actions, Action, Circuit,
    CircuitInstructionKind, Instruction,
};
use crate::pauli::{
    bit01, lemma_shifted_twice, lemma_times_associative, lemma_times_exchange,
    lemma_times_identity, lemma_times_on, lemma_times_shifted, lemma_times_square, PauliBasis,
    PauliOp,
};
use crate::sim_error::SimError;
use crate::simulator::{lemma_same_terms_chain, tableau_iswap, TableauSimulator};

verus! {

// ---------------------------------------------------------------------------
// Runs of gates
// ---------------------------------------------------------------------------
/// The frame after one gate.
#[verifier::opaque]
pub open spec fn tableau_action(t: Seq<PauliOp>, act: Action) -> Seq<PauliOp> {
    match act {
        Action::Gate1 { gate, qubit } => tableau_gate1(t, gate, qubit as int),
        Action::Gate2 { control, target, control_qubit, target_qubit } => tableau_gate2(
            t,
            control,
            target,
            control_qubit as int,
            target_qubit as int,
        ),
        _ => t,
    }
}

/// The frame after the first `i` gates.
pub open spec fn tableau_run(t: Seq<PauliOp>, acts: Seq<Action>, i: int) -> Seq<PauliOp>
    decreases i,
{
    if i <= 0 {
        t
    } else {
        tableau_action(tableau_run(t, acts, i - 1), acts[i - 1])
    }
}

/// Gates on qubits of an `n`-qubit register, and nothing else.
pub open spec fn gates_on(acts: Seq<Action>, n: int) -> bool {
    forall|i: int|
        0 <= i < acts.len() ==> match #[trigger] acts[i] {
            Action::Gate1 { gate, qubit } => qubit < n,
            Action::Gate2 { control, target, control_qubit, target_qubit } => control_qubit < n
                && target_qubit < n && control_qubit != target_qubit,
            _ => false,
        }
}

proof fn lemma_gates_run<A: Copy, K: TermKernels<A>>(
    k: &K,
    program: Seq<Instruction>,
    i: int,
    start: TableauSimulator<A>,
    s: BatchState<A>,
)
    requires
        start.wf(),
        gates_on(actions(program), start.core.n as int),
        0 <= i <= program.len(),
        batch_runs(k, program, i, start, s),
    ensures
        s.sim.wf(),
        s.sim.core.n == start.core.n,
        s.sim.core.r@ == tableau_run(start.core.r@, actions(program), i),
        s.sim.same_state(&start),
        s.records.len() == 0,
        s.values.len() == 0,
    decreases i,
{
    if i > 0 {
        let (p, made, read) = choose|p: BatchState<A>, made: Seq<MeasureResult>, read: Seq<u64>|
            batch_runs(k, program, i - 1, start, p) && #[trigger] batch_step(
                k,
                program[i - 1],
                p,
                s,
                made,
                read,
            );
        lemma_gates_run(k, program, i - 1, start, p);
        let act = actions(program)[i - 1];
        assert(act == program[i - 1]@);
        reveal(tableau_action);
        lemma_same_terms_chain(s.sim.terms@, p.sim.terms@, start.terms@);
    } else {
        assert(s.sim == start);
        lemma_terms_alike(start);
    }
}

proof fn lemma_terms_alike<A: Copy>(sim: TableauSimulator<A>)
    ensures
        sim.same_state(&sim),
{
    assert forall|i: int| 0 <= i < sim.terms@.len() implies crate::label::same_bits(
        (#[trigger] sim.terms@[i]).label.0@,
        sim.terms@[i].label.0@,
    ) by {}
}

/// A circuit of gates succeeds, makes no record and changes the frame alone.
proof fn lemma_gate_circuit<A: Copy, K: TermKernels<A>>(
    k: &K,
    circuit: Circuit,
    before: TableauSimulator<A>,
    after: TableauSimulator<A>,
    r: Result<BatchOutcome, SimError>,
)
    requires
        before.wf(),
        gates_on(circuit_actions(circuit), circuit.nqubits as int),
        circuit_ends(k, circuit, before, after, r),
    ensures
        r is Ok,
        records_made(r) == 0,
        after.same_state(&before),
        after.core.n == crate::simulator::grown_n(before.core.n as int, circuit.nqubits as int),
        clifford(before.grown_frame(circuit.nqubits as int), after.core.n as int),
        after.core.r@ == tableau_run(
            before.grown_frame(circuit.nqubits as int),
            circuit_actions(circuit),
            circuit_actions(circuit).len() as int,
        ),
{
    let n = circuit.nqubits as int;
    let (program, start) = choose|program: Seq<Instruction>, start: TableauSimulator<A>|
        {
            &&& actions(program) == circuit_actions(circuit)
            &&& start.after_gate(&before, n, before.grown_frame(n))
            &&& #[trigger] batch_ends(k, program, start, after, r)
        };
    assert(actions(program).len() == program.len());
    assert(gates_on(actions(program), start.core.n as int)) by {
        assert forall|i: int| 0 <= i < actions(program).len() implies match #[trigger] actions(
            program,
        )[i] {
            Action::Gate1 { gate, qubit } => qubit < start.core.n,
            Action::Gate2 { control, target, control_qubit, target_qubit } => control_qubit
                < start.core.n && target_qubit < start.core.n && control_qubit != target_qubit,
            _ => false,
        } by {
            let act = circuit_actions(circuit)[i];
        }
    }
    match r {
        Ok(outcome) => {
            let s = BatchState {
                sim: after,
                records: outcome.records@,
                values: outcome.expectation_values@,
                peak: outcome.max_rank as int,
            };
            lemma_gates_run(k, program, program.len() as int, start, s);
            lemma_same_terms_chain(after.terms@, start.terms@, before.terms@);
        },
        Err(e) => {
            let (i, p) = choose|i: int, p: BatchState<A>|
                {
                    &&& 0 <= i < program.len()
                    &&& #[trigger] batch_runs(k, program, i, start, p)
                    &&& performs(
                        k,
                        program[i],
                        p.sim,
                        p.records,
                        after,
                        Seq::<MeasureResult>::empty(),
                        Seq::<u64>::empty(),
                        Err(e),
                    )
                };
            let act = actions(program)[i];
            assert(act == program[i]@);
            assert(false);
        },
    }
}

// ---------------------------------------------------------------------------
// One qubit
// ---------------------------------------------------------------------------
/// Where a one-qubit kind takes `X` and `Z`: an axis, and whether it is negated. The name
/// of a kind of period three lists the cycle of the axes, a negated one marked.
pub open spec fn kind_images(kind: CircuitInstructionKind) -> Option<
    ((PauliBasis, bool), (PauliBasis, bool)),
> {
    match kind {
        CircuitInstructionKind::X => Some(((PauliBasis::X, false), (PauliBasis::Z, true))),
        CircuitInstructionKind::Y => Some(((PauliBasis::X, true), (PauliBasis::Z, true))),
        CircuitInstructionKind::Z => Some(((PauliBasis::X, true), (PauliBasis::Z, false))),
        CircuitInstructionKind::H => Some(((PauliBasis::Z, false), (PauliBasis::X, false))),
        CircuitInstructionKind::HXy => Some(((PauliBasis::Y, false), (PauliBasis::Z, true))),
        CircuitInstructionKind::HYz => Some(((PauliBasis::X, true), (PauliBasis::Y, false))),
        CircuitInstructionKind::HNegXy => Some(((PauliBasis::Y, true), (PauliBasis::Z, true))),
        CircuitInstructionKind::HNegXz => Some(((PauliBasis::Z, true), (PauliBasis::X, true))),
        CircuitInstructionKind::HNegYz => Some(((PauliBasis::X, true), (PauliBasis::Y, true))),
        CircuitInstructionKind::S => Some(((PauliBasis::Y, false), (PauliBasis::Z, false))),
        CircuitInstructionKind::SDag => Some(((PauliBasis::Y, true), (PauliBasis::Z, false))),
        CircuitInstructionKind::SqrtX => Some(((PauliBasis::X, false), (PauliBasis::Y, true))),
        CircuitInstructionKind::SqrtXDag => Some(((PauliBasis::X, false), (PauliBasis::Y, false))),
        CircuitInstructionKind::SqrtY => Some(((PauliBasis::Z, true), (PauliBasis::X, false))),
        CircuitInstructionKind::SqrtYDag => Some(((PauliBasis::Z, false), (PauliBasis::X, true))),
        CircuitInstructionKind::CXyz => Some(((PauliBasis::Y, false), (PauliBasis::X, false))),
        CircuitInstructionKind::CZyx => Some(((PauliBasis::Z, false), (PauliBasis::Y, false))),
        CircuitInstructionKind::CNegXyz => Some(((PauliBasis::Y, true), (PauliBasis::X, true))),
        CircuitInstructionKind::CXNegYz => Some(((PauliBasis::Y, true), (PauliBasis::X, false))),
        CircuitInstructionKind::CXyNegZ => Some(((PauliBasis::Y, false), (PauliBasis::X, true))),
        CircuitInstructionKind::CNegZyx => Some(((PauliBasis::Z, true), (PauliBasis::Y, true))),
        CircuitInstructionKind::CZNegYx => Some(((PauliBasis::Z, false), (PauliBasis::Y, true))),
        CircuitInstructionKind::CZyNegX => Some(((PauliBasis::Z, true), (PauliBasis::Y, false))),
        _ => None,
    }
}

/// A circuit with a one-qubit Clifford always succeeds, and takes the axes of its qubit
/// where its kind says: reading the image of an axis through the new frame gives back what
/// the old frame held for the axis. Other qubits, and the state behind the frame, are as
/// before.
#[verifier::rlimit(60)]
#[verifier::spinoff_prover]
pub proof fn law_one_qubit_circuits_turn_the_axes<A: Copy, K: TermKernels<A>>(
    k: &K,
    circuit: Circuit,
    before: TableauSimulator<A>,
    after: TableauSimulator<A>,
    r: Result<BatchOutcome, SimError>,
    q: usize,
)
    requires
        before.wf(),
        circuit.instructions@.len() == 1,
        kind_images(circuit.instructions@[0].kind) is Some,
        circuit.instructions@[0].qubits@ == seq![q],
        q < circuit.nqubits,
        circuit_ends(k, circuit, before, after, r),
    ensures
        r is Ok,
        records_made(r) == 0,
        after.same_state(&before),
        ({
            let images = kind_images(circuit.instructions@[0].kind)->0;
            let t = before.grown_frame(circuit.nqubits as int);
            let u = after.core.r@;
            &&& axis_row(u, images.0.0, q as int).shifted(2 * bit01(images.0.1)) == axis_row(
                t,
                PauliBasis::X,
                q as int,
            )
            &&& axis_row(u, images.1.0, q as int).shifted(2 * bit01(images.1.1)) == axis_row(
                t,
                PauliBasis::Z,
                q as int,
            )
            &&& forall|row: int| 0 <= row < t.len() && row / 2 != q ==> #[trigger] u[row] == t[row]
        }),
{
    let kind = circuit.instructions@[0].kind;
    let n = circuit.nqubits as int;
    let gate = crate::instruction::gate1_of(kind)->0;
    lemma_kind_gate(kind);
    lemma_lone_actions(circuit);
    let acts = circuit_actions(circuit);
    assert(acts == seq![gate1_action(gate, q)]);
    assert(gates_on(acts, n));
    lemma_gate_circuit(k, circuit, before, after, r);
    let t = before.grown_frame(n);
    lemma_one_gate(t, after.core.n as int, gate, q, after.core.r@);
}

pub proof fn lemma_kind_gate(kind: CircuitInstructionKind)
    requires
        kind_images(kind) is Some,
    ensures
        crate::instruction::gate1_of(kind) is Some,
        crate::instruction::gate1_of(kind)->0.signed_images() == kind_images(kind)->0,
{
}

proof fn lemma_one_gate(t: Seq<PauliOp>, n: int, gate: Gate1Q, q: usize, u: Seq<PauliOp>)
    requires
        clifford(t, n),
        q < n,
        u == tableau_run(t, seq![gate1_action(gate, q)], 1),
    ensures
        axis_row(u, gate.signed_images().0.0, q as int).shifted(2 * bit01(gate.signed_images().0.1))
            == axis_row(t, PauliBasis::X, q as int),
        axis_row(u, gate.signed_images().1.0, q as int).shifted(2 * bit01(gate.signed_images().1.1))
            == axis_row(t, PauliBasis::Z, q as int),
        forall|row: int| 0 <= row < t.len() && row / 2 != q ==> #[trigger] u[row] == t[row],
{
    assert(u == tableau_gate1(t, gate, q as int)) by {
        reveal_with_fuel(tableau_run, 2);
        reveal(tableau_action);
    }
    lemma_gate_images(t, n, gate, q as int, u);
}

/// The images of a named gate, read through the new frame.
pub proof fn lemma_gate_images(t: Seq<PauliOp>, n: int, gate: Gate1Q, q: int, u: Seq<PauliOp>)
    requires
        clifford(t, n),
        0 <= q < n,
        u == tableau_gate1(t, gate, q),
    ensures
        axis_row(u, gate.signed_images().0.0, q).shifted(2 * bit01(gate.signed_images().0.1))
            == axis_row(t, PauliBasis::X, q),
        axis_row(u, gate.signed_images().1.0, q).shifted(2 * bit01(gate.signed_images().1.1))
            == axis_row(t, PauliBasis::Z, q),
        forall|row: int| 0 <= row < t.len() && row / 2 != q ==> #[trigger] u[row] == t[row],
{
    law_gate1_matches_images(t, n, gate, q);
    law_gate1(t, n, gate, q);
}

// ---------------------------------------------------------------------------
// Two qubits
// ---------------------------------------------------------------------------
/// The axes of a controlled kind: the Pauli of the second is applied to the second qubit
/// where the first qubit is in the `-1` eigenstate of the first.
pub open spec fn controlled_axes(kind: CircuitInstructionKind) -> Option<(PauliBasis, PauliBasis)> {
    match kind {
        CircuitInstructionKind::Xcx => Some((PauliBasis::X, PauliBasis::X)),
        CircuitInstructionKind::Xcy => Some((PauliBasis::X, PauliBasis::Y)),
        CircuitInstructionKind::Xcz => Some((PauliBasis::X, PauliBasis::Z)),
        CircuitInstructionKind::Ycx => Some((PauliBasis::Y, PauliBasis::X)),
        CircuitInstructionKind::Ycy => Some((PauliBasis::Y, PauliBasis::Y)),
        CircuitInstructionKind::Ycz => Some((PauliBasis::Y, PauliBasis::Z)),
        CircuitInstructionKind::CX => Some((PauliBasis::Z, PauliBasis::X)),
        CircuitInstructionKind::CY => Some((PauliBasis::Z, PauliBasis::Y)),
        CircuitInstructionKind::CZ => Some((PauliBasis::Z, PauliBasis::Z)),
        _ => None,
    }
}

/// The axis of a square root of `PP`, and whether it is the adjoint.
pub open spec fn root_axis(kind: CircuitInstructionKind) -> Option<(PauliBasis, bool)> {
    match kind {
        CircuitInstructionKind::SqrtXx => Some((PauliBasis::X, false)),
        CircuitInstructionKind::SqrtXxDag => Some((PauliBasis::X, true)),
        CircuitInstructionKind::SqrtYy => Some((PauliBasis::Y, false)),
        CircuitInstructionKind::SqrtYyDag => Some((PauliBasis::Y, true)),
        CircuitInstructionKind::SqrtZz => Some((PauliBasis::Z, false)),
        CircuitInstructionKind::SqrtZzDag => Some((PauliBasis::Z, true)),
        _ => None,
    }
}

/// The preimage of `PP` on two qubits.
pub open spec fn pair_row(t: Seq<PauliOp>, axis: PauliBasis, a: int, b: int) -> PauliOp {
    axis_row(t, axis, a).times(axis_row(t, axis, b))
}

/// A square root of `PP`: the preimages that anticommute with `PP` gain its preimage and
/// a factor of `i`, or of `-i` for the adjoint; the others stay.
pub open spec fn rooted(
    t: Seq<PauliOp>,
    axis: PauliBasis,
    adjoint: bool,
    a: int,
    b: int,
    u: Seq<PauliOp>,
) -> bool {
    &&& u.len() == t.len()
    &&& forall|row: int|
        0 <= row < t.len() ==> #[trigger] u[row] == if (row / 2 == a || row / 2 == b) && axis_selects(
            axis,
            row,
        ) {
            pair_row(t, axis, a, b).times(t[row]).shifted(
                if adjoint {
                    3
                } else {
                    1
                },
            )
        } else {
            t[row]
        }
}

/// The two qubits exchange their preimages.
pub open spec fn exchanged(t: Seq<PauliOp>, a: int, b: int, u: Seq<PauliOp>) -> bool {
    &&& u.len() == t.len()
    &&& u[2 * a] == t[2 * b]
    &&& u[2 * a + 1] == t[2 * b + 1]
    &&& u[2 * b] == t[2 * a]
    &&& u[2 * b + 1] == t[2 * a + 1]
    &&& forall|row: int|
        0 <= row < t.len() && row / 2 != a && row / 2 != b ==> #[trigger] u[row] == t[row]
}

/// For two commuting operators of which the first squares to one, `p·q·p = q`.
proof fn lemma_sandwich(n: int, p: PauliOp, q: PauliOp)
    requires
        p.on(n),
        q.on(n),
        p.hermitian(),
        q.hermitian(),
        !p.anticommutes(q),
        !q.anticommutes(p),
    ensures
        p.times(q).times(p) == q,
        q.times(p.times(q)) == p,
        p.times(p.times(q)) == q,
        p.times(q) == q.times(p),
{
    lemma_times_exchange(n, p, q);
    assert(q.times(p).shifted(0) =~= q.times(p));
    lemma_times_associative(n, q, p, p);
    lemma_times_associative(n, p, p, q);
    lemma_times_associative(n, q, p, q);
    lemma_times_associative(n, p, q, q);
    lemma_times_square(n, p);
    lemma_times_square(n, q);
    lemma_times_identity(n, p);
    lemma_times_identity(n, q);
    lemma_times_on(n, p, q);
}

#[verifier::rlimit(60)]
#[verifier::spinoff_prover]
proof fn lemma_swap_run(t: Seq<PauliOp>, n: int, a: int, b: int)
    requires
        clifford(t, n),
        0 <= a < n,
        0 <= b < n,
        a != b,
    ensures
        tableau_cx(tableau_cx(tableau_cx(t, a, b), b, a), a, b) == tableau_swap(t, a, b),
        exchanged(t, a, b, tableau_swap(t, a, b)),
{
    let xa = t[2 * a];
    let za = t[2 * a + 1];
    let xb = t[2 * b];
    let zb = t[2 * b + 1];
    assert(xa.on(n) && za.on(n) && xb.on(n) && zb.on(n));
    assert(xa.hermitian() && za.hermitian() && xb.hermitian() && zb.hermitian());
    assert(!xa.anticommutes(xb) && !xb.anticommutes(xa));
    assert(!za.anticommutes(zb) && !zb.anticommutes(za));
    lemma_sandwich(n, xb, xa);
    lemma_sandwich(n, xa, xb);
    lemma_sandwich(n, za, zb);
    lemma_sandwich(n, zb, za);
    let t1 = tableau_cx(t, a, b);
    let t2 = tableau_cx(t1, b, a);
    let t3 = tableau_cx(t2, a, b);
    assert(t2[2 * b] == xa);
    assert(t2[2 * a + 1] == zb);
    assert(t3 =~= tableau_swap(t, a, b));
}

#[verifier::rlimit(60)]
#[verifier::spinoff_prover]
proof fn lemma_root_zz(t: Seq<PauliOp>, n: int, a: int, b: int, delta: int)
    requires
        clifford(t, n),
        0 <= a < n,
        0 <= b < n,
        a != b,
    ensures
        ({
            let u = tableau_cx(tableau_root_z(tableau_cx(t, a, b), b, delta), a, b);
            let g = t[2 * a + 1].times(t[2 * b + 1]);
            u == t.update(2 * a, g.times(t[2 * a]).shifted(delta)).update(
                2 * b,
                g.times(t[2 * b]).shifted(delta),
            )
        }),
{
    let xa = t[2 * a];
    let za = t[2 * a + 1];
    let xb = t[2 * b];
    let zb = t[2 * b + 1];
    assert(xa.on(n) && za.on(n) && xb.on(n) && zb.on(n));
    assert(xa.hermitian() && za.hermitian() && xb.hermitian() && zb.hermitian());
    assert(!xa.anticommutes(xb) && !xb.anticommutes(xa));
    assert(!za.anticommutes(zb) && !zb.anticommutes(za));
    let g = za.times(zb);
    lemma_times_on(n, za, zb);
    lemma_times_on(n, g, xb);
    lemma_times_on(n, xb, xa);
    lemma_sandwich(n, xb, xa);
    lemma_sandwich(n, za, zb);
    lemma_times_shifted(n, g.times(xb), xb.times(xa), delta);
    lemma_times_associative(n, g, xb, xb.times(xa));
    let t1 = tableau_cx(t, a, b);
    let t2 = tableau_root_z(t1, b, delta);
    let t3 = tableau_cx(t2, a, b);
    assert(t2[2 * b] == g.times(xb).shifted(delta));
    assert(t3[2 * a] == g.times(xa).shifted(delta));
    assert(t3 =~= t.update(2 * a, g.times(xa).shifted(delta)).update(
        2 * b,
        g.times(xb).shifted(delta),
    ));
}

#[verifier::rlimit(60)]
#[verifier::spinoff_prover]
proof fn lemma_root_xx(t: Seq<PauliOp>, n: int, a: int, b: int, delta: int)
    requires
        clifford(t, n),
        0 <= a < n,
        0 <= b < n,
        a != b,
    ensures
        ({
            let t1 = tableau_h(tableau_h(t, a), b);
            let t2 = tableau_cx(tableau_root_z(tableau_cx(t1, a, b), b, delta), a, b);
            let g = t[2 * a].times(t[2 * b]);
            tableau_h(tableau_h(t2, a), b) == t.update(
                2 * a + 1,
                g.times(t[2 * a + 1]).shifted(delta),
            ).update(2 * b + 1, g.times(t[2 * b + 1]).shifted(delta))
        }),
{
    law_h(t, n, a);
    law_h(tableau_h(t, a), n, b);
    let t1 = tableau_h(tableau_h(t, a), b);
    lemma_root_zz(t1, n, a, b, delta);
    let t2 = tableau_cx(tableau_root_z(tableau_cx(t1, a, b), b, delta), a, b);
    let g = t[2 * a].times(t[2 * b]);
    assert(t1[2 * a + 1] == t[2 * a] && t1[2 * b + 1] == t[2 * b]);
    assert(t1[2 * a] == t[2 * a + 1] && t1[2 * b] == t[2 * b + 1]);
    assert(tableau_h(tableau_h(t2, a), b) =~= t.update(
        2 * a + 1,
        g.times(t[2 * a + 1]).shifted(delta),
    ).update(2 * b + 1, g.times(t[2 * b + 1]).shifted(delta)));
}

/// `(g·x)·(i·x·z) = i·g·z`.
#[verifier::rlimit(60)]
#[verifier::spinoff_prover]
proof fn lemma_unroot(n: int, g: PauliOp, x: PauliOp, z: PauliOp, delta: int)
    requires
        g.on(n),
        x.on(n),
        z.on(n),
        x.hermitian(),
    ensures
        g.times(x).shifted(delta).times(x.times(z).shifted(1)).shifted(3) == g.times(z).shifted(delta),
{
    let y = x.times(z);
    lemma_times_on(n, g, x);
    lemma_times_on(n, x, z);
    lemma_shift_out(n, g.times(x), y, delta);
    lemma_cancels(n, g, x, z);
    lemma_whole_turn(g.times(z), delta);
}

proof fn lemma_cancels(n: int, g: PauliOp, x: PauliOp, z: PauliOp)
    requires
        g.on(n),
        x.on(n),
        z.on(n),
        x.hermitian(),
    ensures
        g.times(x).times(x.times(z)) == g.times(z),
{
    let y = x.times(z);
    assert(x.times(y) == z) by {
        lemma_times_associative(n, x, x, z);
        lemma_times_square(n, x);
        lemma_times_identity(n, z);
    }
    assert(g.times(x).times(y) == g.times(x.times(y))) by {
        lemma_times_on(n, x, z);
        lemma_times_associative(n, g, x, y);
    }
}

proof fn lemma_whole_turn(w: PauliOp, delta: int)
    ensures
        w.shifted(delta + 4) == w.shifted(delta),
{
}

proof fn lemma_shift_out(n: int, p: PauliOp, q: PauliOp, delta: int)
    requires
        p.on(n),
        q.on(n),
    ensures
        p.shifted(delta).times(q.shifted(1)).shifted(3) == p.times(q).shifted(delta + 4),
{
    let w = p.times(q);
    assert(p.times(q.shifted(1)) == w.shifted(1)) by {
        lemma_times_shifted(n, p, q, 1);
    }
    assert(p.shifted(delta).times(q.shifted(1)) == p.times(q.shifted(1)).shifted(delta)) by {
        lemma_times_shifted(n, p, q.shifted(1), delta);
    }
    lemma_shifted_twice(w, 1, delta);
    lemma_shifted_twice(w, 1 + delta, 3);
}

#[verifier::rlimit(60)]
#[verifier::spinoff_prover]
proof fn lemma_root_yy(t: Seq<PauliOp>, n: int, a: int, b: int, delta: int)
    requires
        clifford(t, n),
        0 <= a < n,
        0 <= b < n,
        a != b,
    ensures
        ({
            let t1 = tableau_root_x(tableau_root_x(t, a, 1), b, 1);
            let t2 = tableau_cx(tableau_root_z(tableau_cx(t1, a, b), b, delta), a, b);
            let g = axis_row(t, PauliBasis::Y, a).times(axis_row(t, PauliBasis::Y, b));
            tableau_root_x(tableau_root_x(t2, a, 3), b, 3) == t.update(
                2 * a,
                g.times(t[2 * a]).shifted(delta),
            ).update(2 * a + 1, g.times(t[2 * a + 1]).shifted(delta)).update(
                2 * b,
                g.times(t[2 * b]).shifted(delta),
            ).update(2 * b + 1, g.times(t[2 * b + 1]).shifted(delta))
        }),
{
    let xa = t[2 * a];
    let za = t[2 * a + 1];
    let xb = t[2 * b];
    let zb = t[2 * b + 1];
    let ya = xa.times(za).shifted(1);
    let yb = xb.times(zb).shifted(1);
    let g = ya.times(yb);
    let t1 = tableau_root_x(tableau_root_x(t, a, 1), b, 1);
    let t2 = tableau_cx(tableau_root_z(tableau_cx(t1, a, b), b, delta), a, b);
    assert(t1 =~= t.update(2 * a + 1, ya).update(2 * b + 1, yb));
    assert(t2 == t1.update(2 * a, g.times(xa).shifted(delta)).update(
        2 * b,
        g.times(xb).shifted(delta),
    )) by {
        law_root_x(t, n, a, 1);
        law_root_x(tableau_root_x(t, a, 1), n, b, 1);
        lemma_root_zz(t1, n, a, b, delta);
    }
    assert(g.times(xa).shifted(delta).times(ya).shifted(3) == g.times(za).shifted(delta) && g.times(
        xb,
    ).shifted(delta).times(yb).shifted(3) == g.times(zb).shifted(delta)) by {
        assert(xa.on(n) && za.on(n) && xb.on(n) && zb.on(n));
        assert(xa.hermitian() && xb.hermitian());
        lemma_times_on(n, xa, za);
        lemma_times_on(n, xb, zb);
        lemma_times_on(n, ya, yb);
        lemma_unroot(n, g, xa, za, delta);
        lemma_unroot(n, g, xb, zb, delta);
    }
    lemma_unrooted_rows(t2, a, b, g.times(za).shifted(delta), g.times(zb).shifted(delta));
    assert(tableau_root_x(tableau_root_x(t2, a, 3), b, 3) =~= t.update(
        2 * a,
        g.times(xa).shifted(delta),
    ).update(2 * a + 1, g.times(za).shifted(delta)).update(
        2 * b,
        g.times(xb).shifted(delta),
    ).update(2 * b + 1, g.times(zb).shifted(delta)));
}

proof fn lemma_unrooted_rows(t: Seq<PauliOp>, a: int, b: int, za: PauliOp, zb: PauliOp)
    requires
        0 <= a,
        0 <= b,
        2 * a + 1 < t.len(),
        2 * b + 1 < t.len(),
        a != b,
        t[2 * a].times(t[2 * a + 1]).shifted(3) == za,
        t[2 * b].times(t[2 * b + 1]).shifted(3) == zb,
    ensures
        tableau_root_x(tableau_root_x(t, a, 3), b, 3) == t.update(2 * a + 1, za).update(
            2 * b + 1,
            zb,
        ),
{
}

/// What the gates that one action stands for do to the frame.
proof fn lemma_gate_rows(t: Seq<PauliOp>, n: int, a: usize, b: usize)
    requires
        t.len() == 2 * n,
        a < n,
        b < n,
        a != b,
    ensures
        tableau_action(t, cx_action(a, b)) == tableau_cx(t, a as int, b as int),
        tableau_action(t, cx_action(b, a)) == tableau_cx(t, b as int, a as int),
        tableau_action(t, cz_action(a, b)) == tableau_cz(t, a as int, b as int),
        tableau_action(t, gate1_action(Gate1Q::H, a)) == tableau_h(t, a as int),
        tableau_action(t, gate1_action(Gate1Q::S, a)) == tableau_root_z(t, a as int, 1),
        tableau_action(t, gate1_action(Gate1Q::SDag, a)) == tableau_root_z(t, a as int, 3),
        tableau_action(t, gate1_action(Gate1Q::SqrtX, a)) == tableau_root_x(t, a as int, 1),
        tableau_action(t, gate1_action(Gate1Q::SqrtXDag, a)) == tableau_root_x(t, a as int, 3),
        tableau_action(t, gate1_action(Gate1Q::H, b)) == tableau_h(t, b as int),
        tableau_action(t, gate1_action(Gate1Q::S, b)) == tableau_root_z(t, b as int, 1),
        tableau_action(t, gate1_action(Gate1Q::SDag, b)) == tableau_root_z(t, b as int, 3),
        tableau_action(t, gate1_action(Gate1Q::SqrtX, b)) == tableau_root_x(t, b as int, 1),
        tableau_action(t, gate1_action(Gate1Q::SqrtXDag, b)) == tableau_root_x(t, b as int, 3),
{
    reveal(tableau_action);
    law_cx_is_gate2(t, n, a as int, b as int);
    law_cx_is_gate2(t, n, b as int, a as int);
}

/// A run in two parts.
proof fn lemma_run_joined(t: Seq<PauliOp>, first: Seq<Action>, second: Seq<Action>, i: int)
    requires
        0 <= i <= second.len(),
    ensures
        tableau_run(t, first + second, first.len() + i) == tableau_run(
            tableau_run(t, first, first.len() as int),
            second,
            i,
        ),
    decreases i,
{
    if i > 0 {
        lemma_run_joined(t, first, second, i - 1);
        assert((first + second)[first.len() + i - 1] == second[i - 1]);
    } else {
        lemma_run_prefix(t, first, first + second, first.len() as int);
    }
}

proof fn lemma_run_prefix(t: Seq<PauliOp>, p: Seq<Action>, q: Seq<Action>, i: int)
    requires
        0 <= i <= p.len() <= q.len(),
        forall|j: int| 0 <= j < p.len() ==> #[trigger] p[j] == q[j],
    ensures
        tableau_run(t, p, i) == tableau_run(t, q, i),
    decreases i,
{
    if i > 0 {
        lemma_run_prefix(t, p, q, i - 1);
        assert(p[i - 1] == q[i - 1]);
    }
}

/// The whole run.
pub open spec fn ran(t: Seq<PauliOp>, acts: Seq<Action>) -> Seq<PauliOp> {
    tableau_run(t, acts, acts.len() as int)
}

proof fn lemma_ran_joined(t: Seq<PauliOp>, first: Seq<Action>, second: Seq<Action>)
    ensures
        ran(t, first + second) == ran(ran(t, first), second),
{
    lemma_run_joined(t, first, second, second.len() as int);
}

#[verifier::rlimit(60)]
#[verifier::spinoff_prover]
proof fn lemma_ran_swap(t: Seq<PauliOp>, n: int, a: usize, b: usize)
    requires
        clifford(t, n),
        a < n,
        b < n,
        a != b,
    ensures
        ran(t, swap_actions(a, b)) == tableau_swap(t, a as int, b as int),
{
    let acts = swap_actions(a, b);
    let t1 = tableau_cx(t, a as int, b as int);
    let t2 = tableau_cx(t1, b as int, a as int);
    assert(t1.len() == 2 * n && t2.len() == 2 * n);
    assert(tableau_action(t, acts[0]) == t1) by {
        lemma_gate_rows(t, n, a, b);
    }
    assert(tableau_action(t1, acts[1]) == t2) by {
        lemma_gate_rows(t1, n, a, b);
    }
    assert(tableau_action(t2, acts[2]) == tableau_cx(t2, a as int, b as int)) by {
        lemma_gate_rows(t2, n, a, b);
    }
    lemma_ran_three(t, acts);
    lemma_swap_run(t, n, a as int, b as int);
}

#[verifier::rlimit(60)]
#[verifier::spinoff_prover]
proof fn lemma_ran_root_zz(t: Seq<PauliOp>, n: int, a: usize, b: usize, adjoint: bool)
    requires
        t.len() == 2 * n,
        a < n,
        b < n,
        a != b,
    ensures
        ran(t, sqrt_zz_actions(a, b, adjoint)) == tableau_cx(
            tableau_root_z(
                tableau_cx(t, a as int, b as int),
                b as int,
                if adjoint {
                    3
                } else {
                    1
                },
            ),
            a as int,
            b as int,
        ),
{
    let delta: int = if adjoint {
        3
    } else {
        1
    };
    let t1 = tableau_cx(t, a as int, b as int);
    let t2 = tableau_root_z(t1, b as int, delta);
    let acts = sqrt_zz_actions(a, b, adjoint);
    assert(t1.len() == 2 * n && t2.len() == 2 * n);
    assert(tableau_action(t, acts[0]) == t1) by {
        lemma_gate_rows(t, n, a, b);
    }
    assert(tableau_action(t1, acts[1]) == t2) by {
        lemma_gate_rows(t1, n, a, b);
    }
    assert(tableau_action(t2, acts[2]) == tableau_cx(t2, a as int, b as int)) by {
        lemma_gate_rows(t2, n, a, b);
    }
    lemma_ran_three(t, acts);
}

proof fn lemma_ran_three(t: Seq<PauliOp>, acts: Seq<Action>)
    requires
        acts.len() == 3,
    ensures
        ran(t, acts) == tableau_action(
            tableau_action(tableau_action(t, acts[0]), acts[1]),
            acts[2],
        ),
{
    reveal_with_fuel(tableau_run, 4);
}

proof fn lemma_ran_two(t: Seq<PauliOp>, first: Action, second: Action)
    ensures
        ran(t, seq![first, second]) == tableau_action(tableau_action(t, first), second),
        ran(t, seq![first]) == tableau_action(t, first),
{
    reveal_with_fuel(tableau_run, 3);
}

#[verifier::rlimit(60)]
#[verifier::spinoff_prover]
proof fn lemma_ran_root_xx(t: Seq<PauliOp>, n: int, a: usize, b: usize, adjoint: bool, delta: int)
    requires
        t.len() == 2 * n,
        a < n,
        b < n,
        a != b,
        delta == if adjoint {
            3int
        } else {
            1int
        },
    ensures
        ({
            let p = a as int;
            let q = b as int;
            let t1 = tableau_h(tableau_h(t, p), q);
            let t2 = tableau_cx(tableau_root_z(tableau_cx(t1, p, q), q, delta), p, q);
            ran(t, sqrt_pair_actions(PauliBasis::X, a, b, adjoint)) == tableau_h(tableau_h(t2, p), q)
        }),
{
    let p = a as int;
    let q = b as int;
    let zz = sqrt_zz_actions(a, b, adjoint);
    let pre = seq![gate1_action(Gate1Q::H, a), gate1_action(Gate1Q::H, b)];
    let t1 = tableau_h(tableau_h(t, p), q);
    let t2 = tableau_cx(tableau_root_z(tableau_cx(t1, p, q), q, delta), p, q);
    assert(t1.len() == 2 * n && t2.len() == 2 * n);
    assert(ran(t, pre) == t1) by {
        lemma_gate_rows(t, n, a, b);
        lemma_gate_rows(tableau_h(t, p), n, a, b);
        lemma_ran_two(t, pre[0], pre[1]);
    }
    assert(ran(t1, zz) == t2) by {
        lemma_ran_root_zz(t1, n, a, b, adjoint);
    }
    assert(ran(t2, pre) == tableau_h(tableau_h(t2, p), q)) by {
        lemma_gate_rows(t2, n, a, b);
        lemma_gate_rows(tableau_h(t2, p), n, a, b);
        lemma_ran_two(t2, pre[0], pre[1]);
    }
    lemma_ran_joined(t, pre + zz, pre);
    lemma_ran_joined(t, pre, zz);
}

#[verifier::rlimit(60)]
#[verifier::spinoff_prover]
proof fn lemma_ran_root_yy(t: Seq<PauliOp>, n: int, a: usize, b: usize, adjoint: bool, delta: int)
    requires
        t.len() == 2 * n,
        a < n,
        b < n,
        a != b,
        delta == if adjoint {
            3int
        } else {
            1int
        },
    ensures
        ({
            let p = a as int;
            let q = b as int;
            let t1 = tableau_root_x(tableau_root_x(t, p, 1), q, 1);
            let t2 = tableau_cx(tableau_root_z(tableau_cx(t1, p, q), q, delta), p, q);
            ran(t, sqrt_pair_actions(PauliBasis::Y, a, b, adjoint)) == tableau_root_x(
                tableau_root_x(t2, p, 3),
                q,
                3,
            )
        }),
{
    let p = a as int;
    let q = b as int;
    let zz = sqrt_zz_actions(a, b, adjoint);
    let pre = seq![gate1_action(Gate1Q::SqrtX, a), gate1_action(Gate1Q::SqrtX, b)];
    let post = seq![gate1_action(Gate1Q::SqrtXDag, a), gate1_action(Gate1Q::SqrtXDag, b)];
    let t1 = tableau_root_x(tableau_root_x(t, p, 1), q, 1);
    let t2 = tableau_cx(tableau_root_z(tableau_cx(t1, p, q), q, delta), p, q);
    assert(t1.len() == 2 * n && t2.len() == 2 * n);
    assert(ran(t, pre) == t1) by {
        lemma_gate_rows(t, n, a, b);
        lemma_gate_rows(tableau_root_x(t, p, 1), n, a, b);
        lemma_ran_two(t, pre[0], pre[1]);
    }
    assert(ran(t1, zz) == t2) by {
        lemma_ran_root_zz(t1, n, a, b, adjoint);
    }
    assert(ran(t2, post) == tableau_root_x(tableau_root_x(t2, p, 3), q, 3)) by {
        lemma_gate_rows(t2, n, a, b);
        lemma_gate_rows(tableau_root_x(t2, p, 3), n, a, b);
        lemma_ran_two(t2, post[0], post[1]);
    }
    lemma_ran_joined(t, pre + zz, post);
    lemma_ran_joined(t, pre, zz);
}

/// The square roots of `PP` about one axis.
#[verifier::rlimit(60)]
#[verifier::spinoff_prover]
proof fn lemma_ran_root(t: Seq<PauliOp>, n: int, axis: PauliBasis, a: usize, b: usize, adjoint: bool)
    requires
        clifford(t, n),
        a < n,
        b < n,
        a != b,
    ensures
        rooted(t, axis, adjoint, a as int, b as int, ran(t, sqrt_pair_actions(axis, a, b, adjoint))),
{
    let delta: int = if adjoint {
        3
    } else {
        1
    };
    let p = a as int;
    let q = b as int;
    let g = pair_row(t, axis, p, q);
    let u = ran(t, sqrt_pair_actions(axis, a, b, adjoint));
    match axis {
        PauliBasis::Z => {
            assert(u == t.update(2 * p, g.times(t[2 * p]).shifted(delta)).update(
                2 * q,
                g.times(t[2 * q]).shifted(delta),
            )) by {
                lemma_ran_root_zz(t, n, a, b, adjoint);
                lemma_root_zz(t, n, p, q, delta);
            }
        },
        PauliBasis::X => {
            assert(u == t.update(2 * p + 1, g.times(t[2 * p + 1]).shifted(delta)).update(
                2 * q + 1,
                g.times(t[2 * q + 1]).shifted(delta),
            )) by {
                lemma_ran_root_xx(t, n, a, b, adjoint, delta);
                lemma_root_xx(t, n, p, q, delta);
            }
        },
        PauliBasis::Y => {
            assert(u == t.update(2 * p, g.times(t[2 * p]).shifted(delta)).update(
                2 * p + 1,
                g.times(t[2 * p + 1]).shifted(delta),
            ).update(2 * q, g.times(t[2 * q]).shifted(delta)).update(
                2 * q + 1,
                g.times(t[2 * q + 1]).shifted(delta),
            )) by {
                lemma_ran_root_yy(t, n, a, b, adjoint, delta);
                lemma_root_yy(t, n, p, q, delta);
            }
        },
    }
    lemma_rooted_rows(t, n, axis, adjoint, p, q, g, delta, u);
}

proof fn lemma_rooted_rows(
    t: Seq<PauliOp>,
    n: int,
    axis: PauliBasis,
    adjoint: bool,
    a: int,
    b: int,
    g: PauliOp,
    delta: int,
    u: Seq<PauliOp>,
)
    requires
        t.len() == 2 * n,
        0 <= a < n,
        0 <= b < n,
        a != b,
        g == pair_row(t, axis, a, b),
        delta == if adjoint {
            3int
        } else {
            1int
        },
        u == match axis {
            PauliBasis::Z => t.update(2 * a, g.times(t[2 * a]).shifted(delta)).update(
                2 * b,
                g.times(t[2 * b]).shifted(delta),
            ),
            PauliBasis::X => t.update(2 * a + 1, g.times(t[2 * a + 1]).shifted(delta)).update(
                2 * b + 1,
                g.times(t[2 * b + 1]).shifted(delta),
            ),
            PauliBasis::Y => t.update(2 * a, g.times(t[2 * a]).shifted(delta)).update(
                2 * a + 1,
                g.times(t[2 * a + 1]).shifted(delta),
            ).update(2 * b, g.times(t[2 * b]).shifted(delta)).update(
                2 * b + 1,
                g.times(t[2 * b + 1]).shifted(delta),
            ),
        },
    ensures
        rooted(t, axis, adjoint, a, b, u),
{
    assert forall|row: int| 0 <= row < t.len() implies #[trigger] u[row] == if (row / 2 == a || row / 2
        == b) && axis_selects(axis, row) {
        g.times(t[row]).shifted(delta)
    } else {
        t[row]
    } by {
        assert(row == 2 * (row / 2) + row % 2);
    }
}

/// What a two-qubit kind does to the preimages of its qubits. Controlled kinds, the
/// exchange of two qubits and the square roots of `PP` are given directly; `CXSWAP` and
/// `CZSWAP` are a controlled gate and then an exchange, `SWAPCX` the other way round;
/// `ISWAP` exchanges the two `Z`, and takes `X` of one qubit to `X` of the other with
/// both `Z` and a factor of `i`, or of `-i` for the adjoint.
pub open spec fn paired(
    kind: CircuitInstructionKind,
    t: Seq<PauliOp>,
    n: int,
    a: int,
    b: int,
    u: Seq<PauliOp>,
) -> bool {
    let cx = (axis_op(n, PauliBasis::Z, a), axis_op(n, PauliBasis::X, b));
    let cz = (axis_op(n, PauliBasis::Z, a), axis_op(n, PauliBasis::Z, b));
    match controlled_axes(kind) {
        Some((first, second)) => {
            let c = axis_op(n, first, a);
            let k = axis_op(n, second, b);
            u == tableau_controlled(t, c.x, c.z, k.x, k.z, n)
        },
        None => match root_axis(kind) {
            Some((axis, adjoint)) => rooted(t, axis, adjoint, a, b, u),
            None => match kind {
                CircuitInstructionKind::Swap => exchanged(t, a, b, u),
                CircuitInstructionKind::CxSwap => exchanged(
                    tableau_controlled(t, cx.0.x, cx.0.z, cx.1.x, cx.1.z, n),
                    a,
                    b,
                    u,
                ),
                CircuitInstructionKind::CzSwap => exchanged(
                    tableau_controlled(t, cz.0.x, cz.0.z, cz.1.x, cz.1.z, n),
                    a,
                    b,
                    u,
                ),
                CircuitInstructionKind::SwapCx => exists|s: Seq<PauliOp>| #[trigger]
                    exchanged(t, a, b, s) && u == tableau_controlled(
                        s,
                        cx.0.x,
                        cx.0.z,
                        cx.1.x,
                        cx.1.z,
                        n,
                    ),
                CircuitInstructionKind::ISwap | CircuitInstructionKind::ISwapDag => {
                    let delta: int = if kind == CircuitInstructionKind::ISwap {
                        1
                    } else {
                        3
                    };
                    &&& u.len() == t.len()
                    &&& u[2 * a + 1] == t[2 * b + 1]
                    &&& u[2 * b + 1] == t[2 * a + 1]
                    &&& u[2 * a] == t[2 * b + 1].times(t[2 * a + 1].times(t[2 * b])).shifted(delta)
                    &&& u[2 * b] == t[2 * a + 1].times(t[2 * b + 1].times(t[2 * a])).shifted(delta)
                    &&& forall|row: int|
                        0 <= row < t.len() && row / 2 != a && row / 2 != b ==> #[trigger] u[row]
                            == t[row]
                },
                _ => true,
            },
        },
    }
}

#[verifier::rlimit(60)]
#[verifier::spinoff_prover]
proof fn lemma_exchange_run(
    kind: CircuitInstructionKind,
    t: Seq<PauliOp>,
    n: int,
    a: usize,
    b: usize,
)
    requires
        kind == CircuitInstructionKind::Swap || kind == CircuitInstructionKind::CxSwap || kind
            == CircuitInstructionKind::CzSwap || kind == CircuitInstructionKind::SwapCx,
        clifford(t, n),
        a < n,
        b < n,
        a != b,
    ensures
        ran(t, pair_actions(kind, a, b)) == match kind {
            CircuitInstructionKind::Swap => tableau_swap(t, a as int, b as int),
            CircuitInstructionKind::CxSwap => tableau_swap(
                tableau_cx(t, a as int, b as int),
                a as int,
                b as int,
            ),
            CircuitInstructionKind::CzSwap => tableau_swap(
                tableau_cz(t, a as int, b as int),
                a as int,
                b as int,
            ),
            _ => tableau_cx(tableau_swap(t, a as int, b as int), a as int, b as int),
        },
{
    let p = a as int;
    let q = b as int;
    let swap = swap_actions(a, b);
    lemma_gate_rows(t, n, a, b);
    if kind == CircuitInstructionKind::Swap {
        lemma_ran_swap(t, n, a, b);
    } else if kind == CircuitInstructionKind::CxSwap {
        law_cx(t, n, p, q);
        lemma_ran_two(t, cx_action(a, b), cx_action(a, b));
        lemma_ran_joined(t, seq![cx_action(a, b)], swap);
        lemma_ran_swap(tableau_cx(t, p, q), n, a, b);
    } else if kind == CircuitInstructionKind::CzSwap {
        law_cz(t, n, p, q);
        lemma_ran_two(t, cz_action(a, b), cz_action(a, b));
        lemma_ran_joined(t, seq![cz_action(a, b)], swap);
        lemma_ran_swap(tableau_cz(t, p, q), n, a, b);
    } else {
        let s = tableau_swap(t, p, q);
        lemma_ran_joined(t, swap, seq![cx_action(a, b)]);
        lemma_ran_swap(t, n, a, b);
        lemma_ran_two(s, cx_action(a, b), cx_action(a, b));
        lemma_gate_rows(s, n, a, b);
    }
}

/// The first part of an `ISWAP`, and the whole.
#[verifier::rlimit(60)]
#[verifier::spinoff_prover]
proof fn lemma_iswap_run(t: Seq<PauliOp>, n: int, a: usize, b: usize, adjoint: bool)
    requires
        clifford(t, n),
        a < n,
        b < n,
        a != b,
    ensures
        ({
            let delta: int = if adjoint {
                3
            } else {
                1
            };
            let kind = if adjoint {
                CircuitInstructionKind::ISwapDag
            } else {
                CircuitInstructionKind::ISwap
            };
            ran(t, pair_actions(kind, a, b)) == tableau_swap(
                tableau_root_z(
                    tableau_root_z(tableau_cz(t, a as int, b as int), a as int, delta),
                    b as int,
                    delta,
                ),
                a as int,
                b as int,
            )
        }),
{
    let p = a as int;
    let q = b as int;
    let delta: int = if adjoint {
        3
    } else {
        1
    };
    let gate = if adjoint {
        Gate1Q::SDag
    } else {
        Gate1Q::S
    };
    let pre = seq![cz_action(a, b), gate1_action(gate, a), gate1_action(gate, b)];
    let t1 = tableau_cz(t, p, q);
    let t2 = tableau_root_z(t1, p, delta);
    let t3 = tableau_root_z(t2, q, delta);
    assert(clifford(t3, n)) by {
        law_cz(t, n, p, q);
        law_root_z(t1, n, p, delta);
        law_root_z(t2, n, q, delta);
    }
    assert(t1.len() == 2 * n && t2.len() == 2 * n);
    assert(ran(t, seq![pre[0], pre[1]]) == t2) by {
        lemma_gate_rows(t, n, a, b);
        lemma_gate_rows(t1, n, a, b);
        lemma_ran_two(t, pre[0], pre[1]);
    }
    assert(ran(t2, seq![pre[2]]) == t3) by {
        lemma_gate_rows(t2, n, a, b);
        lemma_ran_two(t2, pre[2], pre[2]);
    }
    assert(ran(t, pre) == t3) by {
        lemma_ran_joined(t, seq![pre[0], pre[1]], seq![pre[2]]);
        assert(seq![pre[0], pre[1]] + seq![pre[2]] =~= pre);
    }
    assert(ran(t3, swap_actions(a, b)) == tableau_swap(t3, p, q)) by {
        lemma_ran_swap(t3, n, a, b);
    }
    lemma_ran_joined(t, pre, swap_actions(a, b));
}

proof fn lemma_iswap_rows(t: Seq<PauliOp>, n: int, a: int, b: int, delta: int)
    requires
        t.len() == 2 * n,
        0 <= a < n,
        0 <= b < n,
        a != b,
    ensures
        ({
            let u = tableau_swap(
                tableau_root_z(tableau_root_z(tableau_cz(t, a, b), a, delta), b, delta),
                a,
                b,
            );
            &&& u.len() == t.len()
            &&& u[2 * a + 1] == t[2 * b + 1]
            &&& u[2 * b + 1] == t[2 * a + 1]
            &&& u[2 * a] == t[2 * b + 1].times(t[2 * a + 1].times(t[2 * b])).shifted(delta)
            &&& u[2 * b] == t[2 * a + 1].times(t[2 * b + 1].times(t[2 * a])).shifted(delta)
            &&& forall|row: int|
                0 <= row < t.len() && row / 2 != a && row / 2 != b ==> #[trigger] u[row] == t[row]
        }),
{
}

#[verifier::rlimit(60)]
#[verifier::spinoff_prover]
proof fn lemma_pair_run(
    kind: CircuitInstructionKind,
    t: Seq<PauliOp>,
    n: int,
    a: usize,
    b: usize,
)
    requires
        is_pair_kind(kind),
        clifford(t, n),
        a < n,
        b < n,
        a != b,
    ensures
        paired(kind, t, n, a as int, b as int, ran(t, pair_actions(kind, a, b))),
{
    let p = a as int;
    let q = b as int;
    let acts = pair_actions(kind, a, b);
    let u = ran(t, acts);
    match controlled_axes(kind) {
        Some((first, second)) => {
            let act = Action::Gate2 {
                control: first,
                target: second,
                control_qubit: a,
                target_qubit: b,
            };
            assert(acts == seq![act]);
            lemma_ran_two(t, act, act);
            assert(tableau_action(t, act) == tableau_gate2(t, first, second, p, q)) by {
                reveal(tableau_action);
            }
            law_gate2_is_a_controlled_pauli(t, n, first, second, p, q);
        },
        None => match root_axis(kind) {
            Some((axis, adjoint)) => {
                assert(acts == sqrt_pair_actions(axis, a, b, adjoint));
                lemma_ran_root(t, n, axis, a, b, adjoint);
            },
            None => match kind {
                CircuitInstructionKind::ISwap => {
                    lemma_iswap_run(t, n, a, b, false);
                    lemma_iswap_rows(t, n, p, q, 1);
                },
                CircuitInstructionKind::ISwapDag => {
                    lemma_iswap_run(t, n, a, b, true);
                    lemma_iswap_rows(t, n, p, q, 3);
                },
                _ => {
                    lemma_exchange_run(kind, t, n, a, b);
                    lemma_exchange_paired(kind, t, n, p, q, u);
                },
            },
        },
    }
}

#[verifier::rlimit(60)]
#[verifier::spinoff_prover]
proof fn lemma_exchange_paired(
    kind: CircuitInstructionKind,
    t: Seq<PauliOp>,
    n: int,
    a: int,
    b: int,
    u: Seq<PauliOp>,
)
    requires
        kind == CircuitInstructionKind::Swap || kind == CircuitInstructionKind::CxSwap || kind
            == CircuitInstructionKind::CzSwap || kind == CircuitInstructionKind::SwapCx,
        clifford(t, n),
        0 <= a < n,
        0 <= b < n,
        a != b,
        u == match kind {
            CircuitInstructionKind::Swap => tableau_swap(t, a, b),
            CircuitInstructionKind::CxSwap => tableau_swap(tableau_cx(t, a, b), a, b),
            CircuitInstructionKind::CzSwap => tableau_swap(tableau_cz(t, a, b), a, b),
            _ => tableau_cx(tableau_swap(t, a, b), a, b),
        },
    ensures
        paired(kind, t, n, a, b, u),
{
    let z = axis_op(n, PauliBasis::Z, a);
    let x = axis_op(n, PauliBasis::X, b);
    let w = axis_op(n, PauliBasis::Z, b);
    if kind == CircuitInstructionKind::Swap {
        lemma_exchanged(t, n, a, b);
    } else if kind == CircuitInstructionKind::CxSwap {
        lemma_exchanged(tableau_cx(t, a, b), n, a, b);
        assert(tableau_cx(t, a, b) == tableau_controlled(t, z.x, z.z, x.x, x.z, n)) by {
            law_cx_is_gate2(t, n, a, b);
            law_gate2_is_a_controlled_pauli(t, n, PauliBasis::Z, PauliBasis::X, a, b);
        }
    } else if kind == CircuitInstructionKind::CzSwap {
        lemma_exchanged(tableau_cz(t, a, b), n, a, b);
        assert(tableau_cz(t, a, b) == tableau_controlled(t, z.x, z.z, w.x, w.z, n)) by {
            law_cx_is_gate2(t, n, a, b);
            law_gate2_is_a_controlled_pauli(t, n, PauliBasis::Z, PauliBasis::Z, a, b);
        }
    } else {
        let s = tableau_swap(t, a, b);
        lemma_exchanged(t, n, a, b);
        assert(tableau_cx(s, a, b) == tableau_controlled(s, z.x, z.z, x.x, x.z, n)) by {
            crate::frame_laws::law_swap(t, n, a, b);
            law_cx_is_gate2(s, n, a, b);
            law_gate2_is_a_controlled_pauli(s, n, PauliBasis::Z, PauliBasis::X, a, b);
        }
        assert(exchanged(t, a, b, s));
    }
}

pub proof fn lemma_exchanged(t: Seq<PauliOp>, n: int, a: int, b: int)
    requires
        t.len() == 2 * n,
        0 <= a < n,
        0 <= b < n,
        a != b,
    ensures
        exchanged(t, a, b, tableau_swap(t, a, b)),
{
}

proof fn lemma_pair_gates(kind: CircuitInstructionKind, n: int, a: usize, b: usize)
    requires
        is_pair_kind(kind),
        a < n,
        b < n,
        a != b,
    ensures
        gates_on(pair_actions(kind, a, b), n),
{
}

/// A circuit with a two-qubit Clifford on two different qubits always succeeds, and does
/// to the preimages what its kind says. The state behind the frame is as before.
pub proof fn law_two_qubit_circuits_turn_the_axes<A: Copy, K: TermKernels<A>>(
    k: &K,
    circuit: Circuit,
    before: TableauSimulator<A>,
    after: TableauSimulator<A>,
    r: Result<BatchOutcome, SimError>,
    a: usize,
    b: usize,
)
    requires
        before.wf(),
        circuit.instructions@.len() == 1,
        is_pair_kind(circuit.instructions@[0].kind),
        circuit.instructions@[0].qubits@ == seq![a, b],
        a < circuit.nqubits,
        b < circuit.nqubits,
        a != b,
        circuit_ends(k, circuit, before, after, r),
    ensures
        r is Ok,
        records_made(r) == 0,
        after.same_state(&before),
        paired(
            circuit.instructions@[0].kind,
            before.grown_frame(circuit.nqubits as int),
            after.core.n as int,
            a as int,
            b as int,
            after.core.r@,
        ),
{
    let n = circuit.nqubits as int;
    let kind = circuit.instructions@[0].kind;
    assert(crate::instruction::gate1_of(kind) is None);
    assert(operand_count(circuit.instructions@[0]) == 1);
    lemma_lone_actions(circuit);
    assert(circuit_actions(circuit) == pair_actions(kind, a, b));
    lemma_pair_gates(kind, n, a, b);
    lemma_gate_circuit(k, circuit, before, after, r);
    lemma_pair_run(kind, before.grown_frame(n), after.core.n as int, a, b);
}

/// What [`TableauSimulator::iswap`] does to the preimages: it exchanges the two `Z`, and
/// takes `X` of one qubit to `X` of the other with both `Z` and a factor of `i`; the
/// adjoint has a factor of `-i`.
pub proof fn law_iswap_exchanges_with_a_quarter(t: Seq<PauliOp>, n: int, a: int, b: int)
    requires
        t.len() == 2 * n,
        0 <= a < n,
        0 <= b < n,
        a != b,
    ensures
        paired(CircuitInstructionKind::ISwap, t, n, a, b, tableau_iswap(t, a, b, 1)),
        paired(CircuitInstructionKind::ISwapDag, t, n, a, b, tableau_iswap(t, a, b, 3)),
{
    lemma_iswap_rows(t, n, a, b, 1);
    lemma_iswap_rows(t, n, a, b, 3);
}

} // verus!
