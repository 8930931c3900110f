//! What the methods of the simulator do, by name: the same as the instructions of that
//! name do in a circuit.
use vstd::prelude::*;
use crate::batch::performs;
use crate::clifford_laws::{
    controlled_axes, exchanged, kind_images, law_iswap_exchanges_with_a_quarter, lemma_exchanged,
    lemma_gate_images, lemma_kind_gate, paired,
};
use crate::collapse::{measures_on, peeks};
use crate::evolve::{rotates_on, MeasureResult, TermKernels, Turn};
use crate::frame::{
    tableau_cx, tableau_cz, tableau_h, tableau_root_x, tableau_root_z, tableau_x, tableau_y, tableau_z,
};
use crate::frame_laws::{clifford, law_grow};
use crate::gates::{
    axis_op, axis_row, law_basis_change_turns_the_axis, law_cx_is_gate2,
    law_gate2_is_a_controlled_pauli, tableau_from_z, tableau_gate1, tableau_to_z, Gate1Q,
};
use crate::instruction::{gate1_of, CircuitInstructionKind, Instruction};
use crate::measure_laws::{
    clears_pivots, law_reading_an_axis_reads_its_string, law_reset_qubits_read_zero,
};
use crate::pauli::{bit01, PauliBasis, PauliOp, PauliString};
use crate::sim_error::SimError;
use crate::simulator::{grown_n, need_both, support_end, tableau_iswap, TableauSimulator};

verus! {

// ---------------------------------------------------------------------------
// Gates
// ---------------------------------------------------------------------------
/// The axes of qubit `q` went where the kind takes them; nothing else changed but the
/// width of the register.
#[verifier::opaque]
pub open spec fn turned<A: Copy>(
    kind: CircuitInstructionKind,
    before: TableauSimulator<A>,
    q: int,
    after: TableauSimulator<A>,
) -> bool {
    let t = before.grown_frame(q + 1);
    let u = after.core.r@;
    let images = kind_images(kind)->0;
    &&& after.same_state(&before)
    &&& after.core.n == grown_n(before.core.n as int, q + 1)
    &&& axis_row(u, images.0.0, q).shifted(2 * bit01(images.0.1)) == axis_row(t, PauliBasis::X, q)
    &&& axis_row(u, images.1.0, q).shifted(2 * bit01(images.1.1)) == axis_row(t, PauliBasis::Z, q)
    &&& forall|row: int| 0 <= row < t.len() && row / 2 != q ==> #[trigger] u[row] == t[row]
}

/// The two qubits went where the kind takes them; nothing else changed but the width of
/// the register.
#[verifier::opaque]
pub open spec fn turned_pair<A: Copy>(
    kind: CircuitInstructionKind,
    before: TableauSimulator<A>,
    a: usize,
    b: usize,
    after: TableauSimulator<A>,
    r: Result<(), SimError>,
) -> bool {
    let need = need_both(a as int, b as int);
    match r {
        Ok(_) => {
            &&& a != b
            &&& after.same_state(&before)
            &&& after.core.n == grown_n(before.core.n as int, need)
            &&& paired(
                kind,
                before.grown_frame(need),
                after.core.n as int,
                a as int,
                b as int,
                after.core.r@,
            )
        },
        Err(e) => a == b && e == SimError::RepeatedQubit(a) && after == before,
    }
}

proof fn lemma_widened<A: Copy>(sim: TableauSimulator<A>, need: int)
    requires
        sim.wf(),
        0 <= need,
    ensures
        clifford(sim.grown_frame(need), grown_n(sim.core.n as int, need)),
{
    if need > sim.core.n {
        law_grow(sim.core.r@, sim.core.n as int, need);
    }
}

#[verifier::rlimit(60)]
#[verifier::spinoff_prover]
proof fn lemma_turned<A: Copy>(
    kind: CircuitInstructionKind,
    before: TableauSimulator<A>,
    q: usize,
    after: TableauSimulator<A>,
)
    requires
        before.wf(),
        kind_images(kind) is Some,
        after.after_gate(
            &before,
            q + 1,
            tableau_gate1(before.grown_frame(q + 1), gate1_of(kind)->0, q as int),
        ),
    ensures
        turned(kind, before, q as int, after),
{
    let t = before.grown_frame(q + 1);
    let n = grown_n(before.core.n as int, q + 1);
    let gate = gate1_of(kind)->0;
    lemma_kind_gate(kind);
    lemma_widened(before, q + 1);
    lemma_gate_images(t, n, gate, q as int, after.core.r@);
    lemma_turned_rows(kind, before, q as int, after);
}

proof fn lemma_turned_rows<A: Copy>(
    kind: CircuitInstructionKind,
    before: TableauSimulator<A>,
    q: int,
    after: TableauSimulator<A>,
)
    requires
        ({
            let t = before.grown_frame(q + 1);
            let u = after.core.r@;
            let images = kind_images(kind)->0;
            &&& after.same_state(&before)
            &&& after.core.n == grown_n(before.core.n as int, q + 1)
            &&& axis_row(u, images.0.0, q).shifted(2 * bit01(images.0.1)) == axis_row(
                t,
                PauliBasis::X,
                q,
            )
            &&& axis_row(u, images.1.0, q).shifted(2 * bit01(images.1.1)) == axis_row(
                t,
                PauliBasis::Z,
                q,
            )
            &&& forall|row: int| 0 <= row < t.len() && row / 2 != q ==> #[trigger] u[row] == t[row]
        }),
    ensures
        turned(kind, before, q, after),
{
    reveal(turned);
}

#[verifier::rlimit(60)]
#[verifier::spinoff_prover]
proof fn lemma_controlled_pair<A: Copy>(
    kind: CircuitInstructionKind,
    before: TableauSimulator<A>,
    a: usize,
    b: usize,
    after: TableauSimulator<A>,
    r: Result<(), SimError>,
)
    requires
        before.wf(),
        controlled_axes(kind) is Some,
        crate::simulator::gate2_result(
            &before,
            &after,
            r,
            (controlled_axes(kind)->0).0,
            (controlled_axes(kind)->0).1,
            a,
            b,
        ),
    ensures
        turned_pair(kind, before, a, b, after, r),
{
    reveal(turned_pair);
    if r is Ok {
        let need = need_both(a as int, b as int);
        lemma_widened(before, need);
        law_gate2_is_a_controlled_pauli(
            before.grown_frame(need),
            after.core.n as int,
            (controlled_axes(kind)->0).0,
            (controlled_axes(kind)->0).1,
            a as int,
            b as int,
        );
    }
}

#[verifier::rlimit(60)]
#[verifier::spinoff_prover]
proof fn lemma_named_rows(t: Seq<PauliOp>, q: int)
    ensures
        tableau_gate1(t, Gate1Q::X, q) == tableau_x(t, q),
        tableau_gate1(t, Gate1Q::Y, q) == tableau_y(t, q),
        tableau_gate1(t, Gate1Q::Z, q) == tableau_z(t, q),
        tableau_gate1(t, Gate1Q::H, q) == tableau_h(t, q),
        tableau_gate1(t, Gate1Q::S, q) == tableau_root_z(t, q, 1),
        tableau_gate1(t, Gate1Q::SDag, q) == tableau_root_z(t, q, 3),
        tableau_gate1(t, Gate1Q::SqrtX, q) == tableau_root_x(t, q, 1),
        tableau_gate1(t, Gate1Q::SqrtXDag, q) == tableau_root_x(t, q, 3),
{
}

#[verifier::rlimit(60)]
#[verifier::spinoff_prover]
proof fn lemma_direct_pair<A: Copy>(
    kind: CircuitInstructionKind,
    before: TableauSimulator<A>,
    a: usize,
    b: usize,
    after: TableauSimulator<A>,
    r: Result<(), SimError>,
)
    requires
        before.wf(),
        match r {
            Err(e) => a == b && e == SimError::RepeatedQubit(a) && after == before,
            Ok(_) => a != b && ({
                let need = need_both(a as int, b as int);
                let t = before.grown_frame(need);
                after.after_gate(
                    &before,
                    need,
                    match kind {
                        CircuitInstructionKind::CX => tableau_cx(t, a as int, b as int),
                        CircuitInstructionKind::CZ => tableau_cz(t, a as int, b as int),
                        CircuitInstructionKind::ISwap => tableau_iswap(t, a as int, b as int, 1),
                        _ => tableau_iswap(t, a as int, b as int, 3),
                    },
                )
            }),
        },
        kind == CircuitInstructionKind::CX || kind == CircuitInstructionKind::CZ || kind
            == CircuitInstructionKind::ISwap || kind == CircuitInstructionKind::ISwapDag,
    ensures
        turned_pair(kind, before, a, b, after, r),
{
    let need = need_both(a as int, b as int);
    let t = before.grown_frame(need);
    let n = grown_n(before.core.n as int, need);
    if r is Ok {
        lemma_widened(before, need);
        if controlled_axes(kind) is Some {
            law_cx_is_gate2(t, n, a as int, b as int);
            lemma_controlled_pair(kind, before, a, b, after, r);
        } else {
            law_iswap_exchanges_with_a_quarter(t, n, a as int, b as int);
            reveal(turned_pair);
        }
    } else {
        reveal(turned_pair);
    }
}

/// A one-qubit method takes the axes of its qubit where the kind of its name takes them.
#[verifier::rlimit(100)]
#[verifier::spinoff_prover]
pub proof fn law_one_qubit_methods_turn_the_axes<A: Copy>(sim: &mut TableauSimulator<A>, q: usize)
    requires
        old(sim).wf(),
    ensures
        call_ensures(TableauSimulator::<A>::x, (sim, q), ()) ==> turned(
            CircuitInstructionKind::X,
            *old(sim),
            q as int,
            *final(sim),
        ),
        call_ensures(TableauSimulator::<A>::y, (sim, q), ()) ==> turned(
            CircuitInstructionKind::Y,
            *old(sim),
            q as int,
            *final(sim),
        ),
        call_ensures(TableauSimulator::<A>::z, (sim, q), ()) ==> turned(
            CircuitInstructionKind::Z,
            *old(sim),
            q as int,
            *final(sim),
        ),
        call_ensures(TableauSimulator::<A>::h, (sim, q), ()) ==> turned(
            CircuitInstructionKind::H,
            *old(sim),
            q as int,
            *final(sim),
        ),
        call_ensures(TableauSimulator::<A>::s, (sim, q), ()) ==> turned(
            CircuitInstructionKind::S,
            *old(sim),
            q as int,
            *final(sim),
        ),
        call_ensures(TableauSimulator::<A>::s_dag, (sim, q), ()) ==> turned(
            CircuitInstructionKind::SDag,
            *old(sim),
            q as int,
            *final(sim),
        ),
        call_ensures(TableauSimulator::<A>::sqrt_x, (sim, q), ()) ==> turned(
            CircuitInstructionKind::SqrtX,
            *old(sim),
            q as int,
            *final(sim),
        ),
        call_ensures(TableauSimulator::<A>::sqrt_x_dag, (sim, q), ()) ==> turned(
            CircuitInstructionKind::SqrtXDag,
            *old(sim),
            q as int,
            *final(sim),
        ),
        call_ensures(TableauSimulator::<A>::sqrt_y, (sim, q), ()) ==> turned(
            CircuitInstructionKind::SqrtY,
            *old(sim),
            q as int,
            *final(sim),
        ),
        call_ensures(TableauSimulator::<A>::sqrt_y_dag, (sim, q), ()) ==> turned(
            CircuitInstructionKind::SqrtYDag,
            *old(sim),
            q as int,
            *final(sim),
        ),
        call_ensures(TableauSimulator::<A>::c_xyz, (sim, q), ()) ==> turned(
            CircuitInstructionKind::CXyz,
            *old(sim),
            q as int,
            *final(sim),
        ),
        call_ensures(TableauSimulator::<A>::c_zyx, (sim, q), ()) ==> turned(
            CircuitInstructionKind::CZyx,
            *old(sim),
            q as int,
            *final(sim),
        ),
        call_ensures(TableauSimulator::<A>::h_xy, (sim, q), ()) ==> turned(
            CircuitInstructionKind::HXy,
            *old(sim),
            q as int,
            *final(sim),
        ),
        call_ensures(TableauSimulator::<A>::h_yz, (sim, q), ()) ==> turned(
            CircuitInstructionKind::HYz,
            *old(sim),
            q as int,
            *final(sim),
        ),
{
    lemma_named_rows(old(sim).grown_frame(q + 1), q as int);
    if call_ensures(TableauSimulator::<A>::x, (sim, q), ()) {
        lemma_turned(CircuitInstructionKind::X, *old(sim), q, *final(sim));
    }
    if call_ensures(TableauSimulator::<A>::y, (sim, q), ()) {
        lemma_turned(CircuitInstructionKind::Y, *old(sim), q, *final(sim));
    }
    if call_ensures(TableauSimulator::<A>::z, (sim, q), ()) {
        lemma_turned(CircuitInstructionKind::Z, *old(sim), q, *final(sim));
    }
    if call_ensures(TableauSimulator::<A>::h, (sim, q), ()) {
        lemma_turned(CircuitInstructionKind::H, *old(sim), q, *final(sim));
    }
    if call_ensures(TableauSimulator::<A>::s, (sim, q), ()) {
        lemma_turned(CircuitInstructionKind::S, *old(sim), q, *final(sim));
    }
    if call_ensures(TableauSimulator::<A>::s_dag, (sim, q), ()) {
        lemma_turned(CircuitInstructionKind::SDag, *old(sim), q, *final(sim));
    }
    if call_ensures(TableauSimulator::<A>::sqrt_x, (sim, q), ()) {
        lemma_turned(CircuitInstructionKind::SqrtX, *old(sim), q, *final(sim));
    }
    if call_ensures(TableauSimulator::<A>::sqrt_x_dag, (sim, q), ()) {
        lemma_turned(CircuitInstructionKind::SqrtXDag, *old(sim), q, *final(sim));
    }
    if call_ensures(TableauSimulator::<A>::sqrt_y, (sim, q), ()) {
        lemma_turned(CircuitInstructionKind::SqrtY, *old(sim), q, *final(sim));
    }
    if call_ensures(TableauSimulator::<A>::sqrt_y_dag, (sim, q), ()) {
        lemma_turned(CircuitInstructionKind::SqrtYDag, *old(sim), q, *final(sim));
    }
    if call_ensures(TableauSimulator::<A>::c_xyz, (sim, q), ()) {
        lemma_turned(CircuitInstructionKind::CXyz, *old(sim), q, *final(sim));
    }
    if call_ensures(TableauSimulator::<A>::c_zyx, (sim, q), ()) {
        lemma_turned(CircuitInstructionKind::CZyx, *old(sim), q, *final(sim));
    }
    if call_ensures(TableauSimulator::<A>::h_xy, (sim, q), ()) {
        lemma_turned(CircuitInstructionKind::HXy, *old(sim), q, *final(sim));
    }
    if call_ensures(TableauSimulator::<A>::h_yz, (sim, q), ()) {
        lemma_turned(CircuitInstructionKind::HYz, *old(sim), q, *final(sim));
    }
}

/// A two-qubit method takes the axes of its qubits where the kind of its name takes them,
/// and refuses a repeated qubit.
#[verifier::rlimit(100)]
#[verifier::spinoff_prover]
pub proof fn law_two_qubit_methods_turn_the_axes<A: Copy>(
    sim: &mut TableauSimulator<A>,
    a: usize,
    b: usize,
    r: Result<(), SimError>,
)
    requires
        old(sim).wf(),
    ensures
        call_ensures(TableauSimulator::<A>::cx, (sim, a, b), r) ==> turned_pair(
            CircuitInstructionKind::CX,
            *old(sim),
            a,
            b,
            *final(sim),
            r,
        ),
        call_ensures(TableauSimulator::<A>::cnot, (sim, a, b), r) ==> turned_pair(
            CircuitInstructionKind::CX,
            *old(sim),
            a,
            b,
            *final(sim),
            r,
        ),
        call_ensures(TableauSimulator::<A>::zcx, (sim, a, b), r) ==> turned_pair(
            CircuitInstructionKind::CX,
            *old(sim),
            a,
            b,
            *final(sim),
            r,
        ),
        call_ensures(TableauSimulator::<A>::cy, (sim, a, b), r) ==> turned_pair(
            CircuitInstructionKind::CY,
            *old(sim),
            a,
            b,
            *final(sim),
            r,
        ),
        call_ensures(TableauSimulator::<A>::zcy, (sim, a, b), r) ==> turned_pair(
            CircuitInstructionKind::CY,
            *old(sim),
            a,
            b,
            *final(sim),
            r,
        ),
        call_ensures(TableauSimulator::<A>::cz, (sim, a, b), r) ==> turned_pair(
            CircuitInstructionKind::CZ,
            *old(sim),
            a,
            b,
            *final(sim),
            r,
        ),
        call_ensures(TableauSimulator::<A>::zcz, (sim, a, b), r) ==> turned_pair(
            CircuitInstructionKind::CZ,
            *old(sim),
            a,
            b,
            *final(sim),
            r,
        ),
        call_ensures(TableauSimulator::<A>::xcx, (sim, a, b), r) ==> turned_pair(
            CircuitInstructionKind::Xcx,
            *old(sim),
            a,
            b,
            *final(sim),
            r,
        ),
        call_ensures(TableauSimulator::<A>::xcy, (sim, a, b), r) ==> turned_pair(
            CircuitInstructionKind::Xcy,
            *old(sim),
            a,
            b,
            *final(sim),
            r,
        ),
        call_ensures(TableauSimulator::<A>::xcz, (sim, a, b), r) ==> turned_pair(
            CircuitInstructionKind::Xcz,
            *old(sim),
            a,
            b,
            *final(sim),
            r,
        ),
        call_ensures(TableauSimulator::<A>::ycx, (sim, a, b), r) ==> turned_pair(
            CircuitInstructionKind::Ycx,
            *old(sim),
            a,
            b,
            *final(sim),
            r,
        ),
        call_ensures(TableauSimulator::<A>::ycy, (sim, a, b), r) ==> turned_pair(
            CircuitInstructionKind::Ycy,
            *old(sim),
            a,
            b,
            *final(sim),
            r,
        ),
        call_ensures(TableauSimulator::<A>::ycz, (sim, a, b), r) ==> turned_pair(
            CircuitInstructionKind::Ycz,
            *old(sim),
            a,
            b,
            *final(sim),
            r,
        ),
        call_ensures(TableauSimulator::<A>::iswap, (sim, a, b), r) ==> turned_pair(
            CircuitInstructionKind::ISwap,
            *old(sim),
            a,
            b,
            *final(sim),
            r,
        ),
        call_ensures(TableauSimulator::<A>::iswap_dag, (sim, a, b), r) ==> turned_pair(
            CircuitInstructionKind::ISwapDag,
            *old(sim),
            a,
            b,
            *final(sim),
            r,
        ),
{
    let before = *old(sim);
    let after = *final(sim);
    if call_ensures(TableauSimulator::<A>::cx, (sim, a, b), r) {
        lemma_direct_pair(CircuitInstructionKind::CX, before, a, b, after, r);
    }
    if call_ensures(TableauSimulator::<A>::cnot, (sim, a, b), r) {
        lemma_controlled_pair(CircuitInstructionKind::CX, before, a, b, after, r);
    }
    if call_ensures(TableauSimulator::<A>::zcx, (sim, a, b), r) {
        lemma_controlled_pair(CircuitInstructionKind::CX, before, a, b, after, r);
    }
    if call_ensures(TableauSimulator::<A>::cy, (sim, a, b), r) {
        lemma_controlled_pair(CircuitInstructionKind::CY, before, a, b, after, r);
    }
    if call_ensures(TableauSimulator::<A>::zcy, (sim, a, b), r) {
        lemma_controlled_pair(CircuitInstructionKind::CY, before, a, b, after, r);
    }
    if call_ensures(TableauSimulator::<A>::cz, (sim, a, b), r) {
        lemma_direct_pair(CircuitInstructionKind::CZ, before, a, b, after, r);
    }
    if call_ensures(TableauSimulator::<A>::zcz, (sim, a, b), r) {
        lemma_controlled_pair(CircuitInstructionKind::CZ, before, a, b, after, r);
    }
    if call_ensures(TableauSimulator::<A>::xcx, (sim, a, b), r) {
        lemma_controlled_pair(CircuitInstructionKind::Xcx, before, a, b, after, r);
    }
    if call_ensures(TableauSimulator::<A>::xcy, (sim, a, b), r) {
        lemma_controlled_pair(CircuitInstructionKind::Xcy, before, a, b, after, r);
    }
    if call_ensures(TableauSimulator::<A>::xcz, (sim, a, b), r) {
        lemma_controlled_pair(CircuitInstructionKind::Xcz, before, a, b, after, r);
    }
    if call_ensures(TableauSimulator::<A>::ycx, (sim, a, b), r) {
        lemma_controlled_pair(CircuitInstructionKind::Ycx, before, a, b, after, r);
    }
    if call_ensures(TableauSimulator::<A>::ycy, (sim, a, b), r) {
        lemma_controlled_pair(CircuitInstructionKind::Ycy, before, a, b, after, r);
    }
    if call_ensures(TableauSimulator::<A>::ycz, (sim, a, b), r) {
        lemma_controlled_pair(CircuitInstructionKind::Ycz, before, a, b, after, r);
    }
    if call_ensures(TableauSimulator::<A>::iswap, (sim, a, b), r) {
        lemma_direct_pair(CircuitInstructionKind::ISwap, before, a, b, after, r);
    }
    if call_ensures(TableauSimulator::<A>::iswap_dag, (sim, a, b), r) {
        lemma_direct_pair(CircuitInstructionKind::ISwapDag, before, a, b, after, r);
    }
}

/// `swap` exchanges the preimages of two different qubits.
pub proof fn law_swap_exchanges_its_qubits<A: Copy>(sim: &mut TableauSimulator<A>, a: usize, b: usize)
    requires
        old(sim).wf(),
        a != b,
        call_ensures(TableauSimulator::<A>::swap, (sim, a, b), ()),
    ensures
        final(sim).same_state(old(sim)),
        exchanged(
            old(sim).grown_frame(need_both(a as int, b as int)),
            a as int,
            b as int,
            final(sim).core.r@,
        ),
{
    let need = need_both(a as int, b as int);
    lemma_widened(*old(sim), need);
    lemma_exchanged(
        old(sim).grown_frame(need),
        grown_n(old(sim).core.n as int, need),
        a as int,
        b as int,
    );
}

// ---------------------------------------------------------------------------
// Rotations
// ---------------------------------------------------------------------------
/// `t` turns about `Z` of its qubit by an eighth of a turn, `t_dag` by an eighth back.
pub proof fn law_t_and_its_adjoint_turn_opposite_ways<A: Copy, K: TermKernels<A>>(
    sim: &mut TableauSimulator<A>,
    k: &K,
    q: usize,
    r: Result<(), SimError>,
)
    ensures
        call_ensures(TableauSimulator::<A>::t::<K>, (sim, k, q), r) ==> rotates_on(
            k,
            *old(sim),
            PauliBasis::Z,
            q as int,
            (Turn::Eighth { adjoint: false }),
            *final(sim),
            r,
        ),
        call_ensures(TableauSimulator::<A>::t_dag::<K>, (sim, k, q), r) ==> rotates_on(
            k,
            *old(sim),
            PauliBasis::Z,
            q as int,
            (Turn::Eighth { adjoint: true }),
            *final(sim),
            r,
        ),
{
}

// ---------------------------------------------------------------------------
// Measurements, resets and reads
// ---------------------------------------------------------------------------
/// A measurement is of `Z` and free; a postselection is of the axis of its name, and one
/// that succeeds reports the desired value.
pub proof fn law_postselection_gets_what_it_desires<A: Copy, K: TermKernels<A>>(
    sim: &mut TableauSimulator<A>,
    k: &K,
    q: usize,
    desired: bool,
    r: Result<MeasureResult, SimError>,
)
    ensures
        call_ensures(TableauSimulator::<A>::measure::<K>, (sim, k, q), r) ==> measures_on(
            k,
            *old(sim),
            PauliBasis::Z,
            q as int,
            None,
            *final(sim),
            r,
        ),
        call_ensures(TableauSimulator::<A>::postselect_x::<K>, (sim, k, q, desired), r)
            ==> measures_on(
            k,
            *old(sim),
            PauliBasis::X,
            q as int,
            Some(desired),
            *final(sim),
            r,
        ) && (r is Ok ==> r->Ok_0.outcome == desired),
        call_ensures(TableauSimulator::<A>::postselect_y::<K>, (sim, k, q, desired), r)
            ==> measures_on(
            k,
            *old(sim),
            PauliBasis::Y,
            q as int,
            Some(desired),
            *final(sim),
            r,
        ) && (r is Ok ==> r->Ok_0.outcome == desired),
        call_ensures(TableauSimulator::<A>::postselect_z::<K>, (sim, k, q, desired), r)
            ==> measures_on(
            k,
            *old(sim),
            PauliBasis::Z,
            q as int,
            Some(desired),
            *final(sim),
            r,
        ) && (r is Ok ==> r->Ok_0.outcome == desired),
{
    if call_ensures(TableauSimulator::<A>::postselect_x::<K>, (sim, k, q, desired), r) && r is Ok {
        crate::measure_laws::lemma_forced_outcome(
            k,
            *old(sim),
            PauliBasis::X,
            q as int,
            desired,
            *final(sim),
            r->Ok_0,
        );
    }
    if call_ensures(TableauSimulator::<A>::postselect_y::<K>, (sim, k, q, desired), r) && r is Ok {
        crate::measure_laws::lemma_forced_outcome(
            k,
            *old(sim),
            PauliBasis::Y,
            q as int,
            desired,
            *final(sim),
            r->Ok_0,
        );
    }
    if call_ensures(TableauSimulator::<A>::postselect_z::<K>, (sim, k, q, desired), r) && r is Ok {
        crate::measure_laws::lemma_forced_outcome(
            k,
            *old(sim),
            PauliBasis::Z,
            q as int,
            desired,
            *final(sim),
            r->Ok_0,
        );
    }
}

/// After a reset that succeeded, a measurement of the axis of its name reads zero.
pub proof fn law_reset_methods_leave_zero<A: Copy, K: TermKernels<A>>(
    sim: &mut TableauSimulator<A>,
    k: &K,
    q: usize,
    again: Option<bool>,
    later: TableauSimulator<A>,
    second: MeasureResult,
)
    requires
        old(sim).wf(),
        clears_pivots::<A, K>(k),
    ensures
        call_ensures(TableauSimulator::<A>::reset::<K>, (sim, k, q), Ok(())) && measures_on(
            k,
            *final(sim),
            PauliBasis::Z,
            q as int,
            again,
            later,
            Ok(second),
        ) ==> !second.outcome,
        call_ensures(TableauSimulator::<A>::reset_z::<K>, (sim, k, q), Ok(())) && measures_on(
            k,
            *final(sim),
            PauliBasis::Z,
            q as int,
            again,
            later,
            Ok(second),
        ) ==> !second.outcome,
        call_ensures(TableauSimulator::<A>::reset_x::<K>, (sim, k, q), Ok(())) && measures_on(
            k,
            *final(sim),
            PauliBasis::X,
            q as int,
            again,
            later,
            Ok(second),
        ) ==> !second.outcome,
        call_ensures(TableauSimulator::<A>::reset_y::<K>, (sim, k, q), Ok(())) && measures_on(
            k,
            *final(sim),
            PauliBasis::Y,
            q as int,
            again,
            later,
            Ok(second),
        ) ==> !second.outcome,
{
    if call_ensures(TableauSimulator::<A>::reset::<K>, (sim, k, q), Ok(())) && measures_on(
        k,
        *final(sim),
        PauliBasis::Z,
        q as int,
        again,
        later,
        Ok(second),
    ) {
        law_reset_qubits_read_zero(
            k,
            *old(sim),
            PauliBasis::Z,
            q as int,
            *final(sim),
            again,
            later,
            second,
        );
    }
    if call_ensures(TableauSimulator::<A>::reset_z::<K>, (sim, k, q), Ok(())) && measures_on(
        k,
        *final(sim),
        PauliBasis::Z,
        q as int,
        again,
        later,
        Ok(second),
    ) {
        law_reset_qubits_read_zero(
            k,
            *old(sim),
            PauliBasis::Z,
            q as int,
            *final(sim),
            again,
            later,
            second,
        );
    }
    if call_ensures(TableauSimulator::<A>::reset_x::<K>, (sim, k, q), Ok(())) && measures_on(
        k,
        *final(sim),
        PauliBasis::X,
        q as int,
        again,
        later,
        Ok(second),
    ) {
        law_reset_qubits_read_zero(
            k,
            *old(sim),
            PauliBasis::X,
            q as int,
            *final(sim),
            again,
            later,
            second,
        );
    }
    if call_ensures(TableauSimulator::<A>::reset_y::<K>, (sim, k, q), Ok(())) && measures_on(
        k,
        *final(sim),
        PauliBasis::Y,
        q as int,
        again,
        later,
        Ok(second),
    ) {
        law_reset_qubits_read_zero(
            k,
            *old(sim),
            PauliBasis::Y,
            q as int,
            *final(sim),
            again,
            later,
            second,
        );
    }
}

/// Reading an axis of a qubit gives what reading the string of that axis gives.
pub proof fn law_axis_reads_are_string_reads<A: Copy, K: TermKernels<A>>(
    sim: TableauSimulator<A>,
    k: &K,
    q: usize,
    observable: PauliString,
    r: Result<u64, SimError>,
)
    requires
        sim.wf(),
        observable.op().hermitian(),
        support_end(observable) == q + 1,
    ensures
        call_ensures(TableauSimulator::<A>::peek_x::<K>, (&sim, k, q), r) && (q < sim.core.n
            ==> observable.op_on(sim.core.n as int) == axis_op(
            sim.core.n as int,
            PauliBasis::X,
            q as int,
        )) ==> peeks(k, sim, observable, r),
        call_ensures(TableauSimulator::<A>::peek_y::<K>, (&sim, k, q), r) && (q < sim.core.n
            ==> observable.op_on(sim.core.n as int) == axis_op(
            sim.core.n as int,
            PauliBasis::Y,
            q as int,
        )) ==> peeks(k, sim, observable, r),
        call_ensures(TableauSimulator::<A>::peek_z::<K>, (&sim, k, q), r) && (q < sim.core.n
            ==> observable.op_on(sim.core.n as int) == axis_op(
            sim.core.n as int,
            PauliBasis::Z,
            q as int,
        )) ==> peeks(k, sim, observable, r),
{
    if q < sim.core.n ==> observable.op_on(sim.core.n as int) == axis_op(
        sim.core.n as int,
        PauliBasis::X,
        q as int,
    ) {
        law_reading_an_axis_reads_its_string(k, sim, PauliBasis::X, q, observable, r);
    }
    if q < sim.core.n ==> observable.op_on(sim.core.n as int) == axis_op(
        sim.core.n as int,
        PauliBasis::Y,
        q as int,
    ) {
        law_reading_an_axis_reads_its_string(k, sim, PauliBasis::Y, q, observable, r);
    }
    if q < sim.core.n ==> observable.op_on(sim.core.n as int) == axis_op(
        sim.core.n as int,
        PauliBasis::Z,
        q as int,
    ) {
        law_reading_an_axis_reads_its_string(k, sim, PauliBasis::Z, q, observable, r);
    }
}

// ---------------------------------------------------------------------------
// Instructions
// ---------------------------------------------------------------------------
/// What the method of its name leads to, an instruction of a batch may lead to, gates and
/// resets: with the same operands, and without a record.
pub proof fn law_gate_instructions_do_what_their_methods_do<A: Copy, K: TermKernels<A>>(
    sim: &mut TableauSimulator<A>,
    k: &K,
    gate: Gate1Q,
    basis: PauliBasis,
    target: PauliBasis,
    q: usize,
    p: usize,
    records: Seq<MeasureResult>,
    r: Result<(), SimError>,
)
    ensures
        call_ensures(TableauSimulator::<A>::gate1, (sim, gate, q), ()) ==> performs(
            k,
            (Instruction::Gate1 { gate, qubit: q }),
            *old(sim),
            records,
            *final(sim),
            Seq::<MeasureResult>::empty(),
            Seq::<u64>::empty(),
            Ok(()),
        ),
        call_ensures(TableauSimulator::<A>::gate2, (sim, basis, target, q, p), r) ==> performs(
            k,
            (Instruction::Gate2 {
                control: basis,
                target,
                control_qubit: q,
                target_qubit: p,
            }),
            *old(sim),
            records,
            *final(sim),
            Seq::<MeasureResult>::empty(),
            Seq::<u64>::empty(),
            r,
        ),
        call_ensures(TableauSimulator::<A>::basis_pauli, (sim, basis, q), ()) ==> performs(
            k,
            (Instruction::Pauli { basis, qubit: q }),
            *old(sim),
            records,
            *final(sim),
            Seq::<MeasureResult>::empty(),
            Seq::<u64>::empty(),
            Ok(()),
        ),
        call_ensures(TableauSimulator::<A>::reset_basis::<K>, (sim, k, basis, q), r) ==> performs(
            k,
            (Instruction::Reset { basis, qubit: q }),
            *old(sim),
            records,
            *final(sim),
            Seq::<MeasureResult>::empty(),
            Seq::<u64>::empty(),
            r,
        ),
{
}

/// The same for rotations.
pub proof fn law_rotation_instructions_do_what_their_methods_do<A: Copy, K: TermKernels<A>>(
    sim: &mut TableauSimulator<A>,
    k: &K,
    basis: PauliBasis,
    q: usize,
    axis: PauliString,
    adjoint: bool,
    kernel_angle: u64,
    records: Seq<MeasureResult>,
    r: Result<(), SimError>,
)
    ensures
        call_ensures(TableauSimulator::<A>::t_basis::<K>, (sim, k, basis, q, adjoint), r) ==> performs(
            k,
            (Instruction::T { basis, qubit: q, adjoint }),
            *old(sim),
            records,
            *final(sim),
            Seq::<MeasureResult>::empty(),
            Seq::<u64>::empty(),
            r,
        ),
        call_ensures(TableauSimulator::<A>::t_pauli::<K>, (sim, k, &axis, adjoint), r) ==> performs(
            k,
            (Instruction::TPauli { axis, adjoint }),
            *old(sim),
            records,
            *final(sim),
            Seq::<MeasureResult>::empty(),
            Seq::<u64>::empty(),
            r,
        ),
        call_ensures(TableauSimulator::<A>::pauli_rotation::<K>, (sim, k, &axis, kernel_angle), r)
            ==> performs(
            k,
            (Instruction::PauliRotation { axis, kernel_angle }),
            *old(sim),
            records,
            *final(sim),
            Seq::<MeasureResult>::empty(),
            Seq::<u64>::empty(),
            r,
        ),
{
}

/// The same for measurements, which make one record, and for reads, which make none and
/// change nothing.
pub proof fn law_measuring_instructions_do_what_their_methods_do<A: Copy, K: TermKernels<A>>(
    sim: &mut TableauSimulator<A>,
    k: &K,
    observable: PauliString,
    records: Seq<MeasureResult>,
    result: MeasureResult,
    bits: u64,
)
    ensures
        call_ensures(
            TableauSimulator::<A>::measure_observable::<K>,
            (sim, k, &observable),
            Ok(result),
        ) ==> performs(
            k,
            Instruction::Measure(observable),
            *old(sim),
            records,
            *final(sim),
            seq![result],
            Seq::<u64>::empty(),
            Ok(()),
        ),
        call_ensures(
            TableauSimulator::<A>::peek_observable_expectation::<K>,
            (&*old(sim), k, &observable),
            Ok(bits),
        ) ==> performs(
            k,
            Instruction::Expectation(observable),
            *old(sim),
            records,
            *old(sim),
            Seq::<MeasureResult>::empty(),
            seq![bits],
            Ok(()),
        ),
{
}

/// A rotation about an axis of a qubit is the rotation about `Z`, by the same turn, in a
/// frame that holds the axis in the place of `Z`; afterwards the change of frame is undone.
pub proof fn law_axis_rotations_turn_about_their_axis<A: Copy, K: TermKernels<A>>(
    sim: &mut TableauSimulator<A>,
    k: &K,
    basis: PauliBasis,
    q: usize,
    adjoint: bool,
    r: Result<(), SimError>,
)
    requires
        old(sim).wf(),
        call_ensures(TableauSimulator::<A>::t_basis::<K>, (sim, k, basis, q, adjoint), r),
    ensures
        exists|start: TableauSimulator<A>, mid: TableauSimulator<A>|
            {
                &&& axis_row(start.core.r@, PauliBasis::Z, q as int) == axis_row(
                    old(sim).grown_frame(q + 1),
                    basis,
                    q as int,
                )
                &&& start.same_state(old(sim))
                &&& #[trigger] rotates_on(
                    k,
                    start,
                    PauliBasis::Z,
                    q as int,
                    (Turn::Eighth { adjoint }),
                    mid,
                    r,
                )
                &&& final(sim).same_state(&mid)
                &&& final(sim).core.r@ == tableau_from_z(mid.core.r@, basis, q as int)
            },
{
    let (start, mid) = choose|start: TableauSimulator<A>, mid: TableauSimulator<A>|
        {
            &&& start.after_gate(
                old(sim),
                q + 1,
                tableau_to_z(old(sim).grown_frame(q + 1), basis, q as int),
            )
            &&& #[trigger] rotates_on(
                k,
                start,
                PauliBasis::Z,
                q as int,
                (Turn::Eighth { adjoint }),
                mid,
                r,
            )
            &&& final(sim).after_gate(&mid, q + 1, tableau_from_z(mid.core.r@, basis, q as int))
        };
    lemma_widened(*old(sim), q + 1);
    let n = grown_n(old(sim).core.n as int, q + 1);
    let t = old(sim).grown_frame(q + 1);
    law_basis_change_turns_the_axis(t, basis, q as int, n);
}

} // verus!
