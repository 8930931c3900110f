//! What repeated measurements of the tableau simulator give.
use vstd::prelude::*;
use crate::bits::{group_word_bits, row_bit, row_bits};
use crate::collapse::{
    chooses, collapses, compresses, corrected, expects, filters, measures, measures_on, moved,
    outcome_labels, peeks, peeks_on, projects, resets, settles,
};
use crate::evolve::{
    begins, begins_on, bits_of, is_pivot, pairing, values_of, CosetPairs, MeasureResult,
    TermKernels,
};
use crate::frame::preimage_op;
use crate::frame_laws::tableau_on;
use crate::gates::{axis_op, axis_row, law_axis_row_is_preimage};
use crate::pauli::{
    dot, lemma_dot_unit, lemma_words_dot, y_count, z_op, PauliBasis, PauliOp, PauliString,
};
use crate::sim_error::SimError;
use crate::simulator::{
    grown_n, is_eigen_plus, lemma_measured_op_is_settled, projection_keep, support_end, xor_words,
    Core, Decomposition, PairRewrite, TableauSimulator,
};
use crate::terms::{count_set, holds};

verus! {

/// `d` is the Hermitian operator `p` in the frame of the simulator.
pub open spec fn decomposes<A: Copy>(
    sim: TableauSimulator<A>,
    d: Decomposition,
    p: PauliOp,
) -> bool {
    let n = sim.core.n as int;
    &&& d.wf(n, sim.core.words as int)
    &&& d.op(n) == preimage_op(sim.core.r@, p, n)
    &&& d.op(n).hermitian()
}

/// `(-1)^outcome·Z_pivot`: a label whose pivot bit is clear comes out as `outcome`.
pub open spec fn settled_op(n: int, pivot: int, outcome: bool) -> PauliOp {
    z_op(n, pivot).shifted(
        if outcome {
            2
        } else {
            0
        },
    )
}

/// The lowest qubit that the operator flips.
pub open spec fn lowest_flip(op: PauliOp, pivot: int) -> bool {
    &&& 0 <= pivot < op.x.len()
    &&& op.x[pivot]
    &&& forall|i: int| 0 <= i < pivot ==> !#[trigger] op.x[i]
}

/// No live label holds the pivot of the operator that was measured. A frame-diagonal
/// operator has no pivot.
pub open spec fn pivot_cleared<A: Copy>(sim: TableauSimulator<A>, op: PauliOp) -> bool {
    forall|pivot: int, i: int| #[trigger]
        lowest_flip(op, pivot) && 0 <= i < sim.terms@.len() ==> !row_bit(
            (#[trigger] sim.terms@[i]).label.0@,
            pivot,
        )
}

/// The rewrite keeps no label that holds the pivot, and sends amplitudes only from
/// labels that do, hence to labels that do not.
pub open spec fn rewrite_clears<A>(out: PairRewrite<A>, pivots: Seq<bool>) -> bool {
    &&& forall|i: int| 0 <= i < pivots.len() && #[trigger] out.keep@[i] ==> !pivots[i]
    &&& forall|i: int| 0 <= i < pivots.len() && (#[trigger] out.sent@[i]) is Some ==> pivots[i]
}

/// Every projection of coset pairs clears the pivot: amplitudes that cancel come out
/// zero, and zeros are dropped.
pub open spec fn clears_pivots<A, K: TermKernels<A>>(k: &K) -> bool {
    forall|
        outcome: bool,
        pairs: CosetPairs,
        pivots: Vec<bool>,
        values: Vec<A>,
        epsilon: u64,
        out: PairRewrite<A>,
    | #[trigger]
        call_ensures(K::project_pairs, (k, outcome, pairs, pivots, values, epsilon), out)
            ==> rewrite_clears(out, pivots@)
}

/// Every live label is an eigenstate of the frame-diagonal `d` with this outcome.
pub open spec fn all_come_out<A: Copy>(
    sim: TableauSimulator<A>,
    d: Decomposition,
    outcome: bool,
) -> bool {
    forall|i: int|
        0 <= i < sim.terms@.len() ==> is_eigen_plus(&d, (#[trigger] sim.terms@[i]).label.0@)
            == !outcome
}

/// Whether a label is a `+1` eigenstate depends on its bits and the operator alone.
proof fn lemma_plus(d: Decomposition, label: Seq<u64>, n: int, words: int)
    requires
        d.wf(n, words),
        label.len() == words,
    ensures
        is_eigen_plus(&d, label) == (dot(row_bits(label, n), d.op(n).z) == (d.op(n).phase == 2)),
{
    lemma_words_dot(label, d.b.0@, n);
}

/// An operator without `X` in the frame is frame-diagonal.
proof fn lemma_diagonal(d: Decomposition, n: int, words: int)
    requires
        d.wf(n, words),
    ensures
        d.diagonal() <==> forall|i: int| 0 <= i < n ==> !#[trigger] d.op(n).x[i],
{
    if d.diagonal() {
        assert forall|i: int| 0 <= i < n implies !#[trigger] d.op(n).x[i] by {
            assert(!row_bit(d.a.0@, i));
        }
    }
    if forall|i: int| 0 <= i < n ==> !#[trigger] d.op(n).x[i] {
        assert forall|i: int| !#[trigger] row_bit(d.a.0@, i) by {
            if 0 <= i < n {
                assert(!d.op(n).x[i]);
            }
        }
    }
}

/// A frame-diagonal projection leaves the labels of its outcome.
proof fn lemma_projection_keeps_the_outcome<A: Copy, K: TermKernels<A>>(
    k: &K,
    before: TableauSimulator<A>,
    d: Decomposition,
    outcome: bool,
    after: TableauSimulator<A>,
)
    requires
        d.diagonal(),
        projects(k, before, d, outcome, after, Ok(())),
    ensures
        after.wf(),
        after.core == before.core,
        all_come_out(after, d, outcome),
{
    let (values, kept, out) = choose|values: Vec<A>, kept: Vec<bool>, out: (Vec<A>, Vec<bool>)|
        {
            &&& values@ == values_of(before.terms@)
            &&& kept@ == outcome_labels(before.terms@, d, outcome)
            &&& #[trigger] call_ensures(
                K::project_diagonal,
                (k, values, kept, before.core.prune_epsilon),
                out,
            )
            &&& filters(before, d, outcome, out.0@, out.1@, after, Ok(()))
        };
    let keep = projection_keep(before.terms@, &d, outcome, out.1@);
    assert forall|i: int| 0 <= i < after.terms@.len() implies is_eigen_plus(
        &d,
        (#[trigger] after.terms@[i]).label.0@,
    ) == !outcome by {
        let label = after.terms@[i].label.0@;
        assert(holds(after.terms@, label, after.terms@[i].value));
        let j = choose|j: int|
            0 <= j < before.terms@.len() && #[trigger] keep[j] && before.terms@[j].label.0@ == label
                && out.0@[j] == after.terms@[i].value;
        assert(keep[j]);
    }
}

proof fn lemma_none_counted(flags: Seq<bool>, n: int)
    requires
        0 <= n <= flags.len(),
        forall|i: int| 0 <= i < flags.len() ==> !#[trigger] flags[i],
    ensures
        count_set(flags, n) == 0,
    decreases n,
{
    if n > 0 {
        lemma_none_counted(flags, n - 1);
        assert(!flags[n - 1]);
    }
}

/// Where every label has one outcome, a projection onto the other is refused.
proof fn lemma_other_outcome_is_refused<A: Copy, K: TermKernels<A>>(
    k: &K,
    before: TableauSimulator<A>,
    d: Decomposition,
    outcome: bool,
    after: TableauSimulator<A>,
    r: Result<(), SimError>,
)
    requires
        d.diagonal(),
        all_come_out(before, d, !outcome),
        projects(k, before, d, outcome, after, r),
    ensures
        r == Err::<(), SimError>(
            SimError::EmptyStateAfterPruning { epsilon: before.core.prune_epsilon },
        ),
        after == before,
{
    let (values, kept, out) = choose|values: Vec<A>, kept: Vec<bool>, out: (Vec<A>, Vec<bool>)|
        {
            &&& values@ == values_of(before.terms@)
            &&& kept@ == outcome_labels(before.terms@, d, outcome)
            &&& #[trigger] call_ensures(
                K::project_diagonal,
                (k, values, kept, before.core.prune_epsilon),
                out,
            )
            &&& filters(before, d, outcome, out.0@, out.1@, after, r)
        };
    let keep = projection_keep(before.terms@, &d, outcome, out.1@);
    assert forall|i: int| 0 <= i < keep.len() implies !#[trigger] keep[i] by {
        assert(is_eigen_plus(&d, before.terms@[i].label.0@) == outcome);
    }
    lemma_none_counted(keep, keep.len() as int);
}

/// A measurement that succeeds is a projection onto the outcome it reports.
proof fn lemma_collapse_projects<A: Copy, K: TermKernels<A>>(
    k: &K,
    before: TableauSimulator<A>,
    d: Decomposition,
    forced: Option<bool>,
    after: TableauSimulator<A>,
    result: MeasureResult,
) -> (next: u64)
    requires
        collapses(k, before, d, forced, after, Ok(result)),
    ensures
        projects(k, moved(before, next), d, result.outcome, after, Ok(())),
        forced is Some ==> result.outcome == forced->0,
{
    let (e, next, outcome, probability) = choose|
        e: u64,
        next: u64,
        outcome: bool,
        probability: u64,
    |
        {
            &&& expects(k, before, d, e)
            &&& #[trigger] chooses::<A, K>(
                k,
                e,
                forced,
                before.core.rng,
                next,
                outcome,
            )
            &&& #[trigger] call_ensures(K::chance, (k, e, outcome), probability)
            &&& settles(k, moved(before, next), d, forced, e, outcome, probability, after, Ok(result))
        };
    next
}

/// Measured again, an operator is frame-diagonal, and what is left are the labels of
/// the outcome. Where it was not frame-diagonal the first time, it is `±Z` of the pivot
/// now, with the sign of the first outcome. It comes out as it did then, unless the
/// first projection left a label that holds the pivot: none does where the operator was
/// frame-diagonal, and none does where the arithmetic cancels exactly. A forced outcome
/// is the one reported.
pub proof fn law_measured_again_comes_out_alike<A: Copy, K: TermKernels<A>>(
    k: &K,
    p: PauliOp,
    before: TableauSimulator<A>,
    d: Decomposition,
    forced: Option<bool>,
    mid: TableauSimulator<A>,
    first: MeasureResult,
    resumed: TableauSimulator<A>,
    e: Decomposition,
    again: Option<bool>,
    after: TableauSimulator<A>,
    second: MeasureResult,
)
    requires
        before.wf(),
        p.on(before.core.n as int),
        decomposes(before, d, p),
        collapses(k, before, d, forced, mid, Ok(first)),
        resumed.wf(),
        resumed.core.n == mid.core.n,
        resumed.core.r@ == mid.core.r@,
        resumed.same_state(&mid),
        decomposes(resumed, e, p),
        collapses(k, resumed, e, again, after, Ok(second)),
    ensures
        mid.wf(),
        mid.core.n == before.core.n,
        after.wf(),
        after.core == (Core { rng: after.core.rng, ..resumed.core }),
        e.diagonal(),
        all_come_out(after, e, second.outcome),
        forced is Some ==> first.outcome == forced->0,
        pivot_cleared(mid, d.op(before.core.n as int)) ==> second.outcome == first.outcome,
        clears_pivots::<A, K>(k) ==> pivot_cleared(mid, d.op(before.core.n as int)),
        d.diagonal() ==> pivot_cleared(mid, d.op(before.core.n as int)),
        !d.diagonal() ==> exists|pivot: int| #[trigger]
            is_pivot(d, pivot, before.core.n as int) && e.op(before.core.n as int) == settled_op(
                before.core.n as int,
                pivot,
                first.outcome,
            ),
{
    let n = before.core.n as int;
    let u = lemma_collapse_projects(k, before, d, forced, mid, first);
    let v = lemma_collapse_projects(k, resumed, e, again, after, second);
    let x = moved(before, u);
    let y = moved(resumed, v);
    assert(x.wf());
    lemma_frame_kept(k, x, d, first.outcome, mid);
    if d.diagonal() {
        lemma_projection_keeps_the_outcome(k, x, d, first.outcome, mid);
        lemma_diagonal(d, n, x.core.words as int);
        lemma_diagonal(e, n, resumed.core.words as int);
        assert(all_come_out(y, e, first.outcome)) by {
            assert forall|i: int| 0 <= i < y.terms@.len() implies is_eigen_plus(
                &e,
                (#[trigger] y.terms@[i]).label.0@,
            ) == !first.outcome by {
                let old_label = mid.terms@[i].label.0@;
                let label = resumed.terms@[i].label.0@;
                assert(row_bits(label, n) =~= row_bits(old_label, n));
                lemma_plus(d, old_label, n, mid.core.words as int);
                lemma_plus(e, label, n, resumed.core.words as int);
            }
        }
        assert forall|pivot: int| !#[trigger] lowest_flip(d.op(n), pivot) by {}
        if second.outcome != first.outcome {
            lemma_other_outcome_is_refused(k, y, e, second.outcome, after, Ok(()));
        }
    } else {
        let pivot = lemma_settled_frame(k, p, x, d, first.outcome, mid);
        lemma_diagonal(e, n, resumed.core.words as int);
        assert(lowest_flip(d.op(n), pivot)) by {
            assert forall|i: int| 0 <= i < pivot implies !#[trigger] d.op(n).x[i] by {
                assert(!row_bit(d.a.0@, i));
            }
        }
        assert forall|other: int| #[trigger] lowest_flip(d.op(n), other) implies other == pivot by {
            if other < pivot {
                assert(!d.op(n).x[other]);
            } else if pivot < other {
                assert(!d.op(n).x[pivot]);
            }
        }
        if pivot_cleared(mid, d.op(n)) {
            assert forall|i: int| 0 <= i < y.terms@.len() implies is_eigen_plus(
                &e,
                (#[trigger] y.terms@[i]).label.0@,
            ) == !first.outcome by {
                let label = resumed.terms@[i].label.0@;
                assert(!row_bit(mid.terms@[i].label.0@, pivot));
                assert(!row_bits(label, n)[pivot]);
                lemma_plus(e, label, n, resumed.core.words as int);
                lemma_dot_unit(row_bits(label, n), e.op(n).z, pivot);
            }
            if second.outcome != first.outcome {
                lemma_other_outcome_is_refused(k, y, e, second.outcome, after, Ok(()));
            }
        }
    }
    lemma_projection_keeps_the_outcome(k, y, e, second.outcome, after);
}

/// A projection keeps the register.
proof fn lemma_frame_kept<A: Copy, K: TermKernels<A>>(
    k: &K,
    before: TableauSimulator<A>,
    d: Decomposition,
    outcome: bool,
    after: TableauSimulator<A>,
)
    requires
        projects(k, before, d, outcome, after, Ok(())),
    ensures
        after.wf(),
        after.core.n == before.core.n,
{
}

/// Bit `i` of the XOR of two rows.
proof fn lemma_xor_bit(a: Seq<u64>, b: Seq<u64>, i: int)
    requires
        a.len() == b.len(),
        0 <= i < 64 * a.len(),
    ensures
        row_bit(xor_words(a, b), i) == (row_bit(a, i) != row_bit(b, i)),
{
    broadcast use group_word_bits;

    assert(xor_words(a, b)[i / 64] == a[i / 64] ^ b[i / 64]);
}

/// After an off-diagonal projection the operator is `±Z` of the pivot, and no label
/// holds the pivot where the arithmetic clears it.
proof fn lemma_settled_frame<A: Copy, K: TermKernels<A>>(
    k: &K,
    p: PauliOp,
    before: TableauSimulator<A>,
    d: Decomposition,
    outcome: bool,
    after: TableauSimulator<A>,
) -> (pivot: int)
    requires
        before.wf(),
        p.on(before.core.n as int),
        decomposes(before, d, p),
        !d.diagonal(),
        projects(k, before, d, outcome, after, Ok(())),
    ensures
        is_pivot(d, pivot, before.core.n as int),
        preimage_op(after.core.r@, p, before.core.n as int) == settled_op(
            before.core.n as int,
            pivot,
            outcome,
        ),
        clears_pivots::<A, K>(k) ==> forall|i: int|
            0 <= i < after.terms@.len() ==> !row_bit((#[trigger] after.terms@[i]).label.0@, pivot),
{
    let n = before.core.n as int;
    let (pairs, pivots, values, out, pivot) = choose|
        pairs: CosetPairs,
        pivots: Vec<bool>,
        values: Vec<A>,
        out: PairRewrite<A>,
        pivot: int,
    |
        {
            &&& #[trigger] is_pivot(d, pivot, before.core.n as int)
            &&& values@ == values_of(before.terms@)
            &&& pivots@ == bits_of(before.terms@, pivot)
            &&& pairing(pairs, before.terms@, d)
            &&& #[trigger] call_ensures(
                K::project_pairs,
                (k, outcome, pairs, pivots, values, before.core.prune_epsilon),
                out,
            )
            &&& compresses(before, d, outcome, pivot, out, after, Ok(()))
        };
    assert(d.op(n).x[pivot]);
    lemma_measured_op_is_settled(before.core.r@, p, pivot, outcome, n);
    if clears_pivots::<A, K>(k) {
        assert forall|j: int| 0 <= j < after.terms@.len() implies !row_bit(
            (#[trigger] after.terms@[j]).label.0@,
            pivot,
        ) by {
            let label = after.terms@[j].label.0@;
            let v = after.terms@[j].value;
            assert(holds(after.terms@, label, v));
            if exists|i: int|
                0 <= i < before.terms@.len() && #[trigger] out.keep@[i]
                    && before.terms@[i].label.0@ == label && out.values@[i] == v {
                let i = choose|i: int|
                    0 <= i < before.terms@.len() && #[trigger] out.keep@[i]
                        && before.terms@[i].label.0@ == label && out.values@[i] == v;
                assert(!pivots@[i]);
            } else {
                let i = choose|i: int|
                    0 <= i < before.terms@.len() && (#[trigger] out.sent@[i]) == Some(v)
                        && xor_words(before.terms@[i].label.0@, d.a.0@) == label;
                assert(pivots@[i]);
                lemma_xor_bit(before.terms@[i].label.0@, d.a.0@, pivot);
            }
        }
    }
    pivot
}

/// The axis of one qubit has the preimage that is read off the rows.
proof fn lemma_axis_preimage(t: Seq<PauliOp>, n: int, axis: PauliBasis, q: int)
    requires
        tableau_on(t, n),
        0 <= q < n,
    ensures
        axis_op(n, axis, q).on(n),
        preimage_op(t, axis_op(n, axis, q), n) == axis_row(t, axis, q),
{
    let a = axis_op(n, axis, q);
    law_axis_row_is_preimage(t, n, axis, q);
    lemma_axis_y_count(n, axis, q, n);
}

proof fn lemma_axis_y_count(n: int, axis: PauliBasis, q: int, m: int)
    requires
        0 <= m <= n,
        0 <= q < n,
    ensures
        y_count(axis_op(n, axis, q).x, axis_op(n, axis, q).z, m) == if q < m {
            axis_op(n, axis, q).phase
        } else {
            0
        },
    decreases m,
{
    if m > 0 {
        lemma_axis_y_count(n, axis, q, m - 1);
    }
}

/// The observable in the frame, once the register covers its support.
pub open spec fn framed_observable<A: Copy>(
    sim: TableauSimulator<A>,
    observable: PauliString,
) -> PauliOp {
    let need = support_end(observable);
    let n = grown_n(sim.core.n as int, need);
    preimage_op(sim.grown_frame(need), observable.op_on(n), n)
}

/// An observable that is measured twice in a row comes out the same twice, and as it
/// was forced to, where it was. The one condition is that the first projection left no
/// label that holds its pivot, which is no condition where the observable was
/// frame-diagonal.
pub proof fn law_second_measurement_repeats_the_first<A: Copy, K: TermKernels<A>>(
    k: &K,
    before: TableauSimulator<A>,
    observable: PauliString,
    forced: Option<bool>,
    mid: TableauSimulator<A>,
    first: MeasureResult,
    again: Option<bool>,
    after: TableauSimulator<A>,
    second: MeasureResult,
)
    requires
        before.wf(),
        observable.wf(),
        measures(k, before, observable, forced, mid, Ok(first)),
        pivot_cleared(mid, framed_observable(before, observable)) || clears_pivots::<A, K>(k),
        measures(k, mid, observable, again, after, Ok(second)),
    ensures
        second.outcome == first.outcome,
        forced is Some ==> second.outcome == forced->0,
{
    let (x, d) = choose|x: TableauSimulator<A>, d: Decomposition| #[trigger]
        begins(before, observable, x, d) && collapses(k, x, d, forced, mid, Ok(first));
    let (y, e) = choose|y: TableauSimulator<A>, e: Decomposition| #[trigger]
        begins(mid, observable, y, e) && collapses(k, y, e, again, after, Ok(second));
    let n = x.core.n as int;
    let u = lemma_collapse_projects(k, x, d, forced, mid, first);
    lemma_frame_kept(k, moved(x, u), d, first.outcome, mid);
    lemma_diagonal(d, n, x.core.words as int);
    law_measured_again_comes_out_alike(
        k,
        observable.op_on(n),
        x,
        d,
        forced,
        mid,
        first,
        y,
        e,
        again,
        after,
        second,
    );
}

/// Of three measurements of an observable in a row, the third comes out as the
/// second, whatever the first found.
pub proof fn law_third_measurement_repeats_the_second<A: Copy, K: TermKernels<A>>(
    k: &K,
    before: TableauSimulator<A>,
    observable: PauliString,
    forced: Seq<Option<bool>>,
    one: TableauSimulator<A>,
    first: MeasureResult,
    two: TableauSimulator<A>,
    second: MeasureResult,
    three: TableauSimulator<A>,
    third: MeasureResult,
)
    requires
        before.wf(),
        observable.wf(),
        forced.len() == 3,
        measures(k, before, observable, forced[0], one, Ok(first)),
        measures(k, one, observable, forced[1], two, Ok(second)),
        measures(k, two, observable, forced[2], three, Ok(third)),
    ensures
        third.outcome == second.outcome,
{
    let (x, d) = choose|x: TableauSimulator<A>, d: Decomposition| #[trigger]
        begins(before, observable, x, d) && collapses(k, x, d, forced[0], one, Ok(first));
    let (y, e) = choose|y: TableauSimulator<A>, e: Decomposition| #[trigger]
        begins(one, observable, y, e) && collapses(k, y, e, forced[1], two, Ok(second));
    let (z, f) = choose|z: TableauSimulator<A>, f: Decomposition| #[trigger]
        begins(two, observable, z, f) && collapses(k, z, f, forced[2], three, Ok(third));
    let n = x.core.n as int;
    let p = observable.op_on(n);
    let u = lemma_collapse_projects(k, x, d, forced[0], one, first);
    lemma_frame_kept(k, moved(x, u), d, first.outcome, one);
    law_measured_again_comes_out_alike(k, p, x, d, forced[0], one, first, y, e, forced[1], two, second);
    law_measured_again_comes_out_alike(k, p, y, e, forced[1], two, second, z, f, forced[2], three, third);
}

/// The basis axis in the frame, once the register covers the qubit.
pub open spec fn framed_axis<A: Copy>(sim: TableauSimulator<A>, axis: PauliBasis, q: int) -> PauliOp {
    axis_row(sim.grown_frame(q + 1), axis, q)
}

/// An axis of a qubit that is measured twice in a row comes out the same twice, under
/// the same condition.
pub proof fn law_second_axis_measurement_repeats_the_first<A: Copy, K: TermKernels<A>>(
    k: &K,
    before: TableauSimulator<A>,
    axis: PauliBasis,
    q: int,
    forced: Option<bool>,
    mid: TableauSimulator<A>,
    first: MeasureResult,
    again: Option<bool>,
    after: TableauSimulator<A>,
    second: MeasureResult,
)
    requires
        before.wf(),
        0 <= q,
        measures_on(k, before, axis, q, forced, mid, Ok(first)),
        pivot_cleared(mid, framed_axis(before, axis, q)) || clears_pivots::<A, K>(k),
        measures_on(k, mid, axis, q, again, after, Ok(second)),
    ensures
        second.outcome == first.outcome,
        forced is Some ==> second.outcome == forced->0,
{
    let (x, d) = choose|x: TableauSimulator<A>, d: Decomposition| #[trigger]
        begins_on(before, axis, q, x, d) && collapses(k, x, d, forced, mid, Ok(first));
    let (y, e) = choose|y: TableauSimulator<A>, e: Decomposition| #[trigger]
        begins_on(mid, axis, q, y, e) && collapses(k, y, e, again, after, Ok(second));
    let n = x.core.n as int;
    let u = lemma_collapse_projects(k, x, d, forced, mid, first);
    lemma_frame_kept(k, moved(x, u), d, first.outcome, mid);
    lemma_diagonal(d, n, x.core.words as int);
    lemma_axis_preimage(x.core.r@, n, axis, q);
    lemma_axis_preimage(y.core.r@, n, axis, q);
    law_measured_again_comes_out_alike(
        k,
        axis_op(n, axis, q),
        x,
        d,
        forced,
        mid,
        first,
        y,
        e,
        again,
        after,
        second,
    );
}

/// Of three measurements of an axis of a qubit in a row, the third comes out as the
/// second, whatever the first found.
pub proof fn law_third_axis_measurement_repeats_the_second<A: Copy, K: TermKernels<A>>(
    k: &K,
    before: TableauSimulator<A>,
    axis: PauliBasis,
    q: int,
    forced: Seq<Option<bool>>,
    one: TableauSimulator<A>,
    first: MeasureResult,
    two: TableauSimulator<A>,
    second: MeasureResult,
    three: TableauSimulator<A>,
    third: MeasureResult,
)
    requires
        before.wf(),
        0 <= q,
        forced.len() == 3,
        measures_on(k, before, axis, q, forced[0], one, Ok(first)),
        measures_on(k, one, axis, q, forced[1], two, Ok(second)),
        measures_on(k, two, axis, q, forced[2], three, Ok(third)),
    ensures
        third.outcome == second.outcome,
{
    let (x, d) = choose|x: TableauSimulator<A>, d: Decomposition| #[trigger]
        begins_on(before, axis, q, x, d) && collapses(k, x, d, forced[0], one, Ok(first));
    let (y, e) = choose|y: TableauSimulator<A>, e: Decomposition| #[trigger]
        begins_on(one, axis, q, y, e) && collapses(k, y, e, forced[1], two, Ok(second));
    let (z, f) = choose|z: TableauSimulator<A>, f: Decomposition| #[trigger]
        begins_on(two, axis, q, z, f) && collapses(k, z, f, forced[2], three, Ok(third));
    let n = x.core.n as int;
    let p = axis_op(n, axis, q);
    let u = lemma_collapse_projects(k, x, d, forced[0], one, first);
    lemma_frame_kept(k, moved(x, u), d, first.outcome, one);
    lemma_axis_preimage(x.core.r@, n, axis, q);
    lemma_axis_preimage(y.core.r@, n, axis, q);
    law_measured_again_comes_out_alike(k, p, x, d, forced[0], one, first, y, e, forced[1], two, second);
    lemma_axis_preimage(z.core.r@, n, axis, q);
    law_measured_again_comes_out_alike(k, p, y, e, forced[1], two, second, z, f, forced[2], three, third);
}

/// An axis that a gate negated between two measurements comes out the other way round.
proof fn lemma_negated_comes_out_opposite<A: Copy, K: TermKernels<A>>(
    k: &K,
    p: PauliOp,
    before: TableauSimulator<A>,
    d: Decomposition,
    forced: Option<bool>,
    mid: TableauSimulator<A>,
    first: MeasureResult,
    resumed: TableauSimulator<A>,
    e: Decomposition,
    again: Option<bool>,
    after: TableauSimulator<A>,
    second: MeasureResult,
    negated: bool,
)
    requires
        before.wf(),
        p.on(before.core.n as int),
        decomposes(before, d, p),
        collapses(k, before, d, forced, mid, Ok(first)),
        clears_pivots::<A, K>(k),
        resumed.wf(),
        resumed.core.n == mid.core.n,
        resumed.same_state(&mid),
        e.wf(resumed.core.n as int, resumed.core.words as int),
        e.op(resumed.core.n as int).hermitian(),
        e.op(resumed.core.n as int) == preimage_op(mid.core.r@, p, resumed.core.n as int).shifted(
            if negated {
                2
            } else {
                0
            },
        ),
        collapses(k, resumed, e, again, after, Ok(second)),
    ensures
        second.outcome == (first.outcome != negated),
{
    let n = before.core.n as int;
    let u = lemma_collapse_projects(k, before, d, forced, mid, first);
    let v = lemma_collapse_projects(k, resumed, e, again, after, second);
    let x = moved(before, u);
    let y = moved(resumed, v);
    assert(x.wf());
    lemma_frame_kept(k, x, d, first.outcome, mid);
    let want = first.outcome != negated;
    if d.diagonal() {
        lemma_projection_keeps_the_outcome(k, x, d, first.outcome, mid);
        lemma_diagonal(d, n, x.core.words as int);
        lemma_diagonal(e, n, resumed.core.words as int);
        assert(e.op(n).z == d.op(n).z);
        crate::pauli::lemma_dot_zero(d.op(n).z, d.op(n).x);
        crate::pauli::lemma_dot_symmetric(d.op(n).z, d.op(n).x);
        assert(d.op(n).phase == 0 || d.op(n).phase == 2);
        assert forall|i: int| 0 <= i < y.terms@.len() implies is_eigen_plus(
            &e,
            (#[trigger] y.terms@[i]).label.0@,
        ) == !want by {
            let old_label = mid.terms@[i].label.0@;
            let label = resumed.terms@[i].label.0@;
            assert(row_bits(label, n) =~= row_bits(old_label, n));
            lemma_plus(d, old_label, n, mid.core.words as int);
            lemma_plus(e, label, n, resumed.core.words as int);
            assert(is_eigen_plus(&d, old_label) == !first.outcome);
        }
    } else {
        let pivot = lemma_settled_frame(k, p, x, d, first.outcome, mid);
        lemma_diagonal(e, n, resumed.core.words as int);
        assert forall|i: int| 0 <= i < y.terms@.len() implies is_eigen_plus(
            &e,
            (#[trigger] y.terms@[i]).label.0@,
        ) == !want by {
            let label = resumed.terms@[i].label.0@;
            assert(!row_bit(mid.terms@[i].label.0@, pivot));
            assert(!row_bits(label, n)[pivot]);
            lemma_plus(e, label, n, resumed.core.words as int);
            lemma_dot_unit(row_bits(label, n), e.op(n).z, pivot);
        }
    }
    assert(all_come_out(y, e, want));
    if second.outcome != want {
        lemma_other_outcome_is_refused(k, y, e, second.outcome, after, Ok(()));
    }
}

/// The correction of a reset negates the preimage of the axis, and leaves the other
/// qubits alone.
pub proof fn law_a_correction_negates_the_axis(
    t: Seq<PauliOp>,
    n: int,
    basis: PauliBasis,
    q: int,
    outcome: bool,
)
    requires
        tableau_on(t, n),
        0 <= q < n,
    ensures
        axis_row(corrected(t, basis, q, outcome), basis, q) == axis_row(t, basis, q).shifted(
            if outcome {
                2
            } else {
                0
            },
        ),
        corrected(t, basis, q, outcome).len() == t.len(),
        forall|row: int|
            0 <= row < t.len() && row / 2 != q ==> #[trigger] corrected(t, basis, q, outcome)[row]
                == t[row],
{
    let x = t[2 * q];
    let z = t[2 * q + 1];
    assert(x.on(n) && z.on(n));
    crate::pauli::lemma_times_on(n, x, z);
    crate::pauli::lemma_times_shifted(n, x, z, 2);
    crate::pauli::lemma_shifted_twice(x.times(z), 2, 1);
    crate::pauli::lemma_shifted_twice(x.times(z), 1, 2);
    crate::pauli::lemma_shifted_twice(x.times(z), 1, 0);
    assert(x.shifted(0) =~= x);
    assert(z.shifted(0) =~= z);
    assert(axis_row(t, basis, q).shifted(0) =~= axis_row(t, basis, q)) by {
        assert(axis_row(t, basis, q).on(n));
    }
}

/// A qubit that was reset to an axis reads zero when the axis is measured next.
pub proof fn law_reset_qubits_read_zero<A: Copy, K: TermKernels<A>>(
    k: &K,
    before: TableauSimulator<A>,
    basis: PauliBasis,
    q: int,
    after: TableauSimulator<A>,
    again: Option<bool>,
    later: TableauSimulator<A>,
    second: MeasureResult,
)
    requires
        before.wf(),
        0 <= q,
        resets(k, before, basis, q, after, Ok(())),
        clears_pivots::<A, K>(k),
        measures_on(k, after, basis, q, again, later, Ok(second)),
    ensures
        !second.outcome,
{
    let (mid, first) = choose|mid: TableauSimulator<A>, result: MeasureResult|
        {
            &&& #[trigger] measures_on(k, before, basis, q, None, mid, Ok(result))
            &&& after.after_gate(&mid, q + 1, corrected(mid.core.r@, basis, q, result.outcome))
        };
    let (x, d) = choose|x: TableauSimulator<A>, d: Decomposition| #[trigger]
        begins_on(before, basis, q, x, d) && collapses(k, x, d, None, mid, Ok(first));
    let (y, e) = choose|y: TableauSimulator<A>, e: Decomposition| #[trigger]
        begins_on(after, basis, q, y, e) && collapses(k, y, e, again, later, Ok(second));
    let n = x.core.n as int;
    let u = lemma_collapse_projects(k, x, d, None, mid, first);
    lemma_frame_kept(k, moved(x, u), d, first.outcome, mid);
    lemma_axis_preimage(x.core.r@, n, basis, q);
    lemma_axis_preimage(mid.core.r@, n, basis, q);
    law_a_correction_negates_the_axis(mid.core.r@, n, basis, q, first.outcome);
    crate::simulator::lemma_same_terms_chain(y.terms@, after.terms@, mid.terms@);
    assert(y.core.n == mid.core.n);
    assert(y.core.r@ == corrected(mid.core.r@, basis, q, first.outcome));
    lemma_negated_comes_out_opposite(
        k,
        axis_op(n, basis, q),
        x,
        d,
        None,
        mid,
        first,
        y,
        e,
        again,
        later,
        second,
        first.outcome,
    );
}

/// A label is a `+1` eigenstate of `Z` of a qubit exactly where it lacks that qubit's
/// bit, and of the negated operator where it has it.
pub proof fn law_labels_are_eigenstates_of_their_bits(
    d: Decomposition,
    label: Seq<u64>,
    n: int,
    words: int,
    q: int,
    negated: bool,
)
    requires
        d.wf(n, words),
        label.len() == words,
        0 <= q < n,
        d.op(n) == settled_op(n, q, negated),
    ensures
        is_eigen_plus(&d, label) == (row_bit(label, q) == negated),
{
    lemma_plus(d, label, n, words);
    lemma_dot_unit(row_bits(label, n), d.op(n).z, q);
}

/// Eigenvalues multiply: a label is a `+1` eigenstate of the product of two frame-diagonal
/// operators exactly where its eigenvalues of the two are equal.
pub proof fn law_eigenvalues_multiply(
    d: Decomposition,
    first: Decomposition,
    second: Decomposition,
    label: Seq<u64>,
    n: int,
    words: int,
)
    requires
        d.wf(n, words),
        first.wf(n, words),
        second.wf(n, words),
        label.len() == words,
        first.diagonal(),
        second.diagonal(),
        first.op(n).hermitian(),
        second.op(n).hermitian(),
        d.op(n) == first.op(n).times(second.op(n)),
    ensures
        is_eigen_plus(&d, label) == (is_eigen_plus(&first, label) == is_eigen_plus(&second, label)),
{
    let a = first.op(n);
    let b = second.op(n);
    let bits = row_bits(label, n);
    lemma_plus(d, label, n, words);
    lemma_plus(first, label, n, words);
    lemma_plus(second, label, n, words);
    lemma_diagonal(first, n, words);
    lemma_diagonal(second, n, words);
    crate::pauli::lemma_dot_zero(a.z, b.x);
    crate::pauli::lemma_dot_zero(a.z, a.x);
    crate::pauli::lemma_dot_zero(b.z, b.x);
    crate::pauli::lemma_dot_symmetric(a.z, a.x);
    crate::pauli::lemma_dot_symmetric(b.z, b.x);
    crate::pauli::lemma_dot_xor_right(bits, a.z, b.z);
    assert(a.phase == 0 || a.phase == 2);
    assert(b.phase == 0 || b.phase == 2);
}

/// Reading an axis of a qubit reads the string that is that axis at the qubit: the same
/// value, or the same refusal.
pub proof fn law_reading_an_axis_reads_its_string<A: Copy, K: TermKernels<A>>(
    k: &K,
    sim: TableauSimulator<A>,
    axis: PauliBasis,
    q: usize,
    observable: PauliString,
    r: Result<u64, SimError>,
)
    requires
        sim.wf(),
        observable.op().hermitian(),
        support_end(observable) == q + 1,
        q < sim.core.n ==> observable.op_on(sim.core.n as int) == axis_op(
            sim.core.n as int,
            axis,
            q as int,
        ),
    ensures
        peeks_on(k, sim, axis, q, r) == peeks(k, sim, observable, r),
{
    let n = sim.core.n as int;
    if q < n {
        lemma_axis_preimage(sim.core.r@, n, axis, q as int);
    }
}

/// A forced measurement that succeeds reports the forced outcome.
pub proof fn lemma_forced_outcome<A: Copy, K: TermKernels<A>>(
    k: &K,
    before: TableauSimulator<A>,
    axis: PauliBasis,
    q: int,
    forced: bool,
    after: TableauSimulator<A>,
    result: MeasureResult,
)
    requires
        measures_on(k, before, axis, q, Some(forced), after, Ok(result)),
    ensures
        result.outcome == forced,
{
    let (x, d) = choose|x: TableauSimulator<A>, d: Decomposition| #[trigger]
        begins_on(before, axis, q, x, d) && collapses(k, x, d, Some(forced), after, Ok(result));
    let next = lemma_collapse_projects(k, x, d, Some(forced), after, result);
}

} // verus!
