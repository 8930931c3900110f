//! Measurements, resets and reads of the tableau simulator.
use vstd::prelude::*;
use crate::bits::row_bit;
use crate::evolve::{
    begins, begins_on, bits_of, is_pivot, pairing, plus_of, rank_refusal, values_of, well_shaped,
    CosetPairs, MeasureResult, TermKernels,
};
use crate::frame::{preimage_op, register_fits, tableau_x, tableau_z};
use crate::gates::axis_row;
use crate::label::LabelKey;
use crate::pauli::{PauliBasis, PauliOp, PauliString};
use crate::sim_error::SimError;
use crate::simulator::{
    is_eigen_plus, measured_frame, projection_keep, support_end, Core, Decomposition, PairRewrite,
    TableauSimulator,
};
use crate::terms::{count_set, holds, Term};

verus! {

/// `e` is the expectation of a decomposed observable.
pub open spec fn expects<A: Copy, K: TermKernels<A>>(
    k: &K,
    sim: TableauSimulator<A>,
    d: Decomposition,
    e: u64,
) -> bool {
    if d.diagonal() {
        exists|values: Vec<A>, plus: Vec<bool>|
            {
                &&& values@ == values_of(sim.terms@)
                &&& plus@ == plus_of(sim.terms@, d)
                &&& #[trigger] call_ensures(K::expect_diagonal, (k, values, plus), e)
            }
    } else {
        exists|pairs: CosetPairs, values: Vec<A>|
            {
                &&& values@ == values_of(sim.terms@)
                &&& pairing(pairs, sim.terms@, d)
                &&& #[trigger] call_ensures(K::expect_pairs, (k, pairs, values), e)
            }
    }
}

/// A forced outcome draws nothing; any other is drawn, and the generator moves.
pub open spec fn chooses<A: Copy, K: TermKernels<A>>(
    k: &K,
    e: u64,
    forced: Option<bool>,
    rng: u64,
    next: u64,
    outcome: bool,
) -> bool {
    match forced {
        Some(o) => outcome == o && next == rng,
        None => call_ensures(K::draw, (k, e, rng), (next, outcome)),
    }
}

/// The labels a projection onto `outcome` keeps, before pruning.
pub open spec fn outcome_labels<A>(
    terms: Seq<Term<A>>,
    d: Decomposition,
    outcome: bool,
) -> Seq<bool> {
    Seq::new(terms.len(), |i: int| is_eigen_plus(&d, terms[i].label.0@) != outcome)
}

/// The simulator with the generator at another position.
pub open spec fn moved<A: Copy>(sim: TableauSimulator<A>, rng: u64) -> TableauSimulator<A> {
    TableauSimulator { core: Core { rng, ..sim.core }, terms: sim.terms }
}

/// A frame-diagonal projection is installed, or refused with the state as it was.
pub open spec fn filters<A: Copy>(
    before: TableauSimulator<A>,
    d: Decomposition,
    outcome: bool,
    values: Seq<A>,
    heavy: Seq<bool>,
    after: TableauSimulator<A>,
    r: Result<(), SimError>,
) -> bool {
    let keep = projection_keep(before.terms@, &d, outcome, heavy);
    let rank = count_set(keep, keep.len() as int);
    match rank_refusal(rank, before.core.rank_cap, before.core.prune_epsilon) {
        Some(e) => r == Err::<(), SimError>(e) && after == before,
        None => {
            &&& r is Ok
            &&& after.wf()
            &&& after.core == before.core
            &&& after.terms@.len() == rank
            &&& forall|label: Seq<u64>, v: A| #[trigger]
                holds(after.terms@, label, v) <==> exists|i: int|
                    0 <= i < before.terms@.len() && #[trigger] keep[i]
                        && before.terms@[i].label.0@ == label && values[i] == v
        },
    }
}

/// An off-diagonal projection is installed and the frame compressed, or it is
/// refused with both as they were.
pub open spec fn compresses<A: Copy>(
    before: TableauSimulator<A>,
    d: Decomposition,
    outcome: bool,
    pivot: int,
    rewrite: PairRewrite<A>,
    after: TableauSimulator<A>,
    r: Result<(), SimError>,
) -> bool {
    let n = before.core.n as int;
    let rank = before.rewritten_rank(&rewrite);
    match rank_refusal(rank, before.core.rank_cap, before.core.prune_epsilon) {
        Some(e) => r == Err::<(), SimError>(e) && after == before,
        None => {
            &&& r is Ok
            &&& after.wf()
            &&& after.core.n == before.core.n
            &&& after.core.rng == before.core.rng
            &&& after.core.prune_epsilon == before.core.prune_epsilon
            &&& after.core.rank_cap == before.core.rank_cap
            &&& after.core.r@ == measured_frame(before.core.r@, d.op(n), pivot, outcome, n)
            &&& after.terms@.len() == rank
            &&& before.rewritten(&d, &rewrite, after.terms@)
        },
    }
}

/// What the projection onto an outcome of a decomposed observable does.
pub open spec fn projects<A: Copy, K: TermKernels<A>>(
    k: &K,
    before: TableauSimulator<A>,
    d: Decomposition,
    outcome: bool,
    after: TableauSimulator<A>,
    r: Result<(), SimError>,
) -> bool {
    let epsilon = before.core.prune_epsilon;
    if d.diagonal() {
        exists|values: Vec<A>, kept: Vec<bool>, out: (Vec<A>, Vec<bool>)|
            {
                &&& values@ == values_of(before.terms@)
                &&& kept@ == outcome_labels(before.terms@, d, outcome)
                &&& #[trigger] call_ensures(K::project_diagonal, (k, values, kept, epsilon), out)
                &&& filters(before, d, outcome, out.0@, out.1@, after, r)
            }
    } else {
        exists|
            pairs: CosetPairs,
            pivots: Vec<bool>,
            values: Vec<A>,
            out: PairRewrite<A>,
            pivot: int,
        |
            {
                &&& #[trigger] is_pivot(d, pivot, before.core.n as int)
                &&& values@ == values_of(before.terms@)
                &&& pivots@ == bits_of(before.terms@, pivot)
                &&& pairing(pairs, before.terms@, d)
                &&& #[trigger] call_ensures(
                    K::project_pairs,
                    (k, outcome, pairs, pivots, values, epsilon),
                    out,
                )
                &&& compresses(before, d, outcome, pivot, out, after, r)
            }
    }
}

/// What follows once the expectation `e` is known and an outcome chosen: a forced
/// outcome of negligible probability is refused; otherwise the state is
/// projected, and the result reports the outcome with its probability.
pub open spec fn settles<A: Copy, K: TermKernels<A>>(
    k: &K,
    before: TableauSimulator<A>,
    d: Decomposition,
    forced: Option<bool>,
    e: u64,
    outcome: bool,
    probability: u64,
    after: TableauSimulator<A>,
    r: Result<MeasureResult, SimError>,
) -> bool {
    ||| {
        &&& forced is Some
        &&& call_ensures(K::negligible, (k, probability), true)
        &&& r == Err::<MeasureResult, SimError>(
            SimError::PostselectImpossible { outcome, probability },
        )
        &&& after == before
    }
    ||| {
        &&& forced is None || call_ensures(K::negligible, (k, probability), false)
        &&& match r {
            Err(error) => projects(k, before, d, outcome, after, Err(error)),
            Ok(result) => {
                &&& projects(k, before, d, outcome, after, Ok(()))
                &&& result.outcome == outcome
                &&& result.probability == probability
                &&& call_ensures(K::certain, (k, e), result.deterministic)
            },
        }
    }
}

/// What measuring a decomposed observable does.
pub open spec fn collapses<A: Copy, K: TermKernels<A>>(
    k: &K,
    before: TableauSimulator<A>,
    d: Decomposition,
    forced: Option<bool>,
    after: TableauSimulator<A>,
    r: Result<MeasureResult, SimError>,
) -> bool {
    exists|e: u64, next: u64, outcome: bool, probability: u64|
        {
            &&& expects(k, before, d, e)
            &&& #[trigger] chooses::<A, K>(k, e, forced, before.core.rng, next, outcome)
            &&& #[trigger] call_ensures(K::chance, (k, e, outcome), probability)
            &&& settles(k, moved(before, next), d, forced, e, outcome, probability, after, r)
        }
}

/// What measuring a Pauli does. An observable with an imaginary coefficient is
/// refused and changes nothing.
pub open spec fn measures<A: Copy, K: TermKernels<A>>(
    k: &K,
    before: TableauSimulator<A>,
    observable: PauliString,
    forced: Option<bool>,
    after: TableauSimulator<A>,
    r: Result<MeasureResult, SimError>,
) -> bool {
    if !observable.op().hermitian() {
        r == Err::<MeasureResult, SimError>(SimError::NonHermitianPauli) && after == before
    } else {
        exists|mid: TableauSimulator<A>, d: Decomposition|
            #[trigger] begins(before, observable, mid, d) && collapses(k, mid, d, forced, after, r)
    }
}

/// What measuring a basis axis of one qubit does.
pub open spec fn measures_on<A: Copy, K: TermKernels<A>>(
    k: &K,
    before: TableauSimulator<A>,
    axis: PauliBasis,
    q: int,
    forced: Option<bool>,
    after: TableauSimulator<A>,
    r: Result<MeasureResult, SimError>,
) -> bool {
    exists|mid: TableauSimulator<A>, d: Decomposition|
        #[trigger] begins_on(before, axis, q, mid, d) && collapses(k, mid, d, forced, after, r)
}

/// The frame after the correction of a reset.
pub open spec fn corrected(t: Seq<PauliOp>, basis: PauliBasis, q: int, outcome: bool) -> Seq<
    PauliOp,
> {
    if !outcome {
        t
    } else if basis == PauliBasis::Z {
        tableau_x(t, q)
    } else {
        tableau_z(t, q)
    }
}

/// What resetting a qubit to the `+1` eigenstate of `basis` does: the axis is
/// measured, and a `-1` outcome is corrected.
pub open spec fn resets<A: Copy, K: TermKernels<A>>(
    k: &K,
    before: TableauSimulator<A>,
    basis: PauliBasis,
    q: int,
    after: TableauSimulator<A>,
    r: Result<(), SimError>,
) -> bool {
    match r {
        Err(e) => measures_on(k, before, basis, q, None, after, Err(e)),
        Ok(_) => exists|mid: TableauSimulator<A>, result: MeasureResult|
            {
                &&& #[trigger] measures_on(k, before, basis, q, None, mid, Ok(result))
                &&& after.after_gate(&mid, q + 1, corrected(mid.core.r@, basis, q, result.outcome))
            },
    }
}

/// What a read of an expectation gives.
pub open spec fn reads<A: Copy, K: TermKernels<A>>(
    k: &K,
    sim: TableauSimulator<A>,
    d: Decomposition,
    bits: u64,
) -> bool {
    exists|e: u64|
        expects(k, sim, d, e) && #[trigger] call_ensures(K::bounded, (k, e), bits)
}

/// What a read of the operator with this form in the frame gives.
pub open spec fn reads_op<A: Copy, K: TermKernels<A>>(
    k: &K,
    sim: TableauSimulator<A>,
    op: PauliOp,
    bits: u64,
) -> bool {
    exists|d: Decomposition|
        {
            &&& d.wf(sim.core.n as int, sim.core.words as int)
            &&& d.op(sim.core.n as int) == op
            &&& #[trigger] reads(k, sim, d, bits)
        }
}

/// What a read of a Pauli gives: an axis with an imaginary coefficient and a
/// support past the register are refused.
pub open spec fn peeks<A: Copy, K: TermKernels<A>>(
    k: &K,
    sim: TableauSimulator<A>,
    observable: PauliString,
    r: Result<u64, SimError>,
) -> bool {
    let n = sim.core.n as int;
    if !observable.op().hermitian() {
        r == Err::<u64, SimError>(SimError::NonHermitianPauli)
    } else if support_end(observable) > n {
        r == Err::<u64, SimError>(
            SimError::QubitIndexOutOfRange {
                index: (support_end(observable) - 1) as usize,
                num_qubits: sim.core.n,
            },
        )
    } else {
        r is Ok && reads_op(
            k,
            sim,
            preimage_op(sim.core.r@, observable.op_on(n), n),
            r->Ok_0,
        )
    }
}

/// What a read of a basis axis gives: a qubit past the register is refused.
pub open spec fn peeks_on<A: Copy, K: TermKernels<A>>(
    k: &K,
    sim: TableauSimulator<A>,
    axis: PauliBasis,
    q: usize,
    r: Result<u64, SimError>,
) -> bool {
    let n = sim.core.n as int;
    if q >= n {
        r == Err::<u64, SimError>(
            SimError::QubitIndexOutOfRange { index: q, num_qubits: sim.core.n },
        )
    } else {
        r is Ok && reads_op(k, sim, axis_row(sim.core.r@, axis, q as int), r->Ok_0)
    }
}

impl<A: Copy> TableauSimulator<A> {
    /// The expectation of a decomposed observable.
    fn expectation_of<K: TermKernels<A>>(&self, k: &K, d: &Decomposition) -> (r: u64)
        requires
            self.wf(),
            d.wf(self.core.n as int, self.core.words as int),
        ensures
            expects(k, *self, *d, r),
    {
        let values: Vec<A> = self.amplitudes();
        let ghost given = values;
        if d.is_diagonal() {
            let plus: Vec<bool> = self.eigen_plus(d);
            assert(plus@ =~= plus_of(self.terms@, *d));
            let ghost signs = plus;
            let e: u64 = k.expect_diagonal(values, plus);
            assert(call_ensures(K::expect_diagonal, (k, given, signs), e));
            e
        } else {
            let pairs: CosetPairs = self.coset_pairs(d);
            let ghost paired = pairs;
            let e: u64 = k.expect_pairs(pairs, values);
            assert(call_ensures(K::expect_pairs, (k, paired, given), e));
            e
        }
    }

    /// One bit of every label.
    fn label_bits(&self, at: usize) -> (r: Vec<bool>)
        requires
            self.wf(),
            at < self.core.n,
        ensures
            r@ == bits_of(self.terms@, at as int),
    {
        let mut out: Vec<bool> = Vec::new();
        let mut i: usize = 0;
        while i < self.terms.len()
            invariant
                i <= self.terms@.len(),
                self.wf(),
                at < self.core.n,
                out@ == bits_of(self.terms@, at as int).take(i as int),
            decreases self.terms@.len() - i,
        {
            assert(self.terms@[i as int].label.0@.len() == self.core.words);
            let bit: bool = self.terms[i].label.get(at);
            out.push(bit);
            proof {
                assert(bits_of(self.terms@, at as int).take(i + 1) =~= bits_of(
                    self.terms@,
                    at as int,
                ).take(i as int).push(bit));
            }
            i += 1;
        }
        proof {
            assert(bits_of(self.terms@, at as int).take(i as int) =~= bits_of(
                self.terms@,
                at as int,
            ));
        }
        out
    }

    /// Projects onto an outcome of a decomposed observable.
    fn project<K: TermKernels<A>>(&mut self, k: &K, d: &Decomposition, outcome: bool) -> (r: Result<
        (),
        SimError,
    >)
        requires
            old(self).wf(),
            old(self).roomy(),
            d.wf(old(self).core.n as int, old(self).core.words as int),
            d.op(old(self).core.n as int).hermitian(),
            well_shaped::<A, K>(k),
        ensures
            final(self).wf(),
            final(self).roomy(),
            final(self).core.n == old(self).core.n,
            projects(k, *old(self), *d, outcome, *final(self), r),
    {
        let values: Vec<A> = self.amplitudes();
        let ghost given = values;
        let epsilon: u64 = self.core.prune_epsilon;
        if d.is_diagonal() {
            let mut kept: Vec<bool> = self.eigen_plus(d);
            let mut i: usize = 0;
            while i < kept.len()
                invariant
                    i <= kept@.len(),
                    kept@.len() == self.terms@.len(),
                    forall|j: int|
                        0 <= j < i ==> #[trigger] kept@[j] == (is_eigen_plus(
                            d,
                            self.terms@[j].label.0@,
                        ) != outcome),
                    forall|j: int|
                        i <= j < kept@.len() ==> #[trigger] kept@[j] == is_eigen_plus(
                            d,
                            self.terms@[j].label.0@,
                        ),
                decreases kept@.len() - i,
            {
                let keeps: bool = kept[i] != outcome;
                kept.set(i, keeps);
                i += 1;
            }
            assert(kept@ =~= outcome_labels(self.terms@, *d, outcome));
            let ghost labels = kept;
            let out: (Vec<A>, Vec<bool>) = k.project_diagonal(values, kept, epsilon);
            assert(call_ensures(K::project_diagonal, (k, given, labels, epsilon), out));
            let r = self.commit_projection(d, outcome, &out.0, &out.1);
            assert(filters(*old(self), *d, outcome, out.0@, out.1@, *self, r));
            r
        } else {
            let pivot: usize = self.measurement_pivot(d);
            assert(is_pivot(*d, pivot as int, self.core.n as int));
            let pairs: CosetPairs = self.coset_pairs(d);
            let pivots: Vec<bool> = self.label_bits(pivot);
            let ghost paired = pairs;
            let ghost bits = pivots;
            let out: PairRewrite<A> = k.project_pairs(outcome, pairs, pivots, values, epsilon);
            assert(call_ensures(K::project_pairs, (k, outcome, paired, bits, given, epsilon), out));
            let r = self.commit_random_measurement(d, outcome, &out);
            proof {
                assert forall|p: int| #[trigger]
                    row_bit(d.a.0@, p) && 0 <= p && (forall|i: int|
                        i < p ==> !#[trigger] row_bit(d.a.0@, i)) implies p == pivot by {
                    assert(row_bit(d.a.0@, pivot as int));
                }
                assert(compresses(*old(self), *d, outcome, pivot as int, out, *self, r));
            }
            r
        }
    }

    /// Measures a decomposed observable, sampling or forcing the outcome.
    fn measure_decomposed<K: TermKernels<A>>(
        &mut self,
        k: &K,
        d: &Decomposition,
        forced: Option<bool>,
    ) -> (r: Result<MeasureResult, SimError>)
        requires
            old(self).wf(),
            old(self).roomy(),
            d.wf(old(self).core.n as int, old(self).core.words as int),
            d.op(old(self).core.n as int).hermitian(),
            well_shaped::<A, K>(k),
        ensures
            final(self).wf(),
            final(self).roomy(),
            final(self).core.n == old(self).core.n,
            collapses(k, *old(self), *d, forced, *final(self), r),
    {
        let e: u64 = self.expectation_of(k, d);
        let (next, outcome): (u64, bool) = match forced {
            Some(o) => (self.core.rng, o),
            None => k.draw(e, self.core.rng),
        };
        let ghost rng = self.core.rng;
        assert(chooses::<A, K>(k, e, forced, rng, next, outcome));
        let probability: u64 = k.chance(e, outcome);
        assert(call_ensures(K::chance, (k, e, outcome), probability));
        self.core.rng = next;
        let ghost before = *self;
        assert(before == moved(*old(self), next));
        if forced.is_some() {
            if k.negligible(probability) {
                return Err(SimError::PostselectImpossible { outcome, probability });
            }
        }
        match self.project(k, d, outcome) {
            Err(error) => Err(error),
            Ok(_) => {
                let deterministic: bool = k.certain(e);
                Ok(MeasureResult { outcome, probability, deterministic })
            },
        }
    }

    /// Measures a basis axis of one qubit, sampling or forcing the outcome.
    fn measure_axis<K: TermKernels<A>>(
        &mut self,
        k: &K,
        axis: PauliBasis,
        q: usize,
        forced: Option<bool>,
    ) -> (r: Result<MeasureResult, SimError>)
        requires
            old(self).wf(),
            old(self).roomy(),
            register_fits(q + 1),
            well_shaped::<A, K>(k),
        ensures
            final(self).wf(),
            final(self).roomy(),
            final(self).core.n > q,
            measures_on(k, *old(self), axis, q as int, forced, *final(self), r),
    {
        let d: Decomposition = self.begin_basis(axis, q);
        let ghost mid = *self;
        assert(begins_on(*old(self), axis, q as int, mid, d));
        self.measure_decomposed(k, &d, forced)
    }

    /// Measures qubit `q` in the `Z` basis, sampling the outcome and collapsing
    /// the state onto it. The register grows to cover `q`.
    pub fn measure<K: TermKernels<A>>(&mut self, k: &K, q: usize) -> (r: Result<
        MeasureResult,
        SimError,
    >)
        requires
            old(self).wf(),
            old(self).roomy(),
            register_fits(q + 1),
            well_shaped::<A, K>(k),
        ensures
            final(self).wf(),
            final(self).roomy(),
            measures_on(k, *old(self), PauliBasis::Z, q as int, None, *final(self), r),
    {
        self.measure_axis(k, PauliBasis::Z, q, None)
    }

    fn measure_pauli<K: TermKernels<A>>(
        &mut self,
        k: &K,
        observable: &PauliString,
        forced: Option<bool>,
    ) -> (r: Result<MeasureResult, SimError>)
        requires
            old(self).wf(),
            old(self).roomy(),
            observable.wf(),
            register_fits(observable.nqubits as int),
            well_shaped::<A, K>(k),
        ensures
            final(self).wf(),
            final(self).roomy(),
            measures(k, *old(self), *observable, forced, *final(self), r),
    {
        match self.begin_axis(observable) {
            Err(e) => Err(e),
            Ok(d) => {
                let ghost mid = *self;
                assert(begins(*old(self), *observable, mid, d));
                self.measure_decomposed(k, &d, forced)
            },
        }
    }

    /// Measures a Pauli observable, sampling the outcome. The register grows to
    /// cover its support.
    pub fn measure_observable<K: TermKernels<A>>(&mut self, k: &K, observable: &PauliString) -> (r:
        Result<MeasureResult, SimError>)
        requires
            old(self).wf(),
            old(self).roomy(),
            observable.wf(),
            register_fits(observable.nqubits as int),
            well_shaped::<A, K>(k),
        ensures
            final(self).wf(),
            final(self).roomy(),
            measures(k, *old(self), *observable, None, *final(self), r),
    {
        self.measure_pauli(k, observable, None)
    }

    /// Forces the measurement of `observable` to `desired_value` (`false` is
    /// `+1`), projecting the state onto that eigenspace. The result reports the
    /// probability the branch had.
    pub fn postselect_observable<K: TermKernels<A>>(
        &mut self,
        k: &K,
        observable: &PauliString,
        desired_value: bool,
    ) -> (r: Result<MeasureResult, SimError>)
        requires
            old(self).wf(),
            old(self).roomy(),
            observable.wf(),
            register_fits(observable.nqubits as int),
            well_shaped::<A, K>(k),
        ensures
            final(self).wf(),
            final(self).roomy(),
            measures(k, *old(self), *observable, Some(desired_value), *final(self), r),
    {
        self.measure_pauli(k, observable, Some(desired_value))
    }

    /// Forces the `Z` measurement of qubit `q`.
    pub fn postselect_z<K: TermKernels<A>>(&mut self, k: &K, q: usize, desired_value: bool) -> (r:
        Result<MeasureResult, SimError>)
        requires
            old(self).wf(),
            old(self).roomy(),
            register_fits(q + 1),
            well_shaped::<A, K>(k),
        ensures
            final(self).wf(),
            final(self).roomy(),
            measures_on(
                k,
                *old(self),
                PauliBasis::Z,
                q as int,
                Some(desired_value),
                *final(self),
                r,
            ),
    {
        self.measure_axis(k, PauliBasis::Z, q, Some(desired_value))
    }

    /// Forces the `X` measurement of qubit `q`.
    pub fn postselect_x<K: TermKernels<A>>(&mut self, k: &K, q: usize, desired_value: bool) -> (r:
        Result<MeasureResult, SimError>)
        requires
            old(self).wf(),
            old(self).roomy(),
            register_fits(q + 1),
            well_shaped::<A, K>(k),
        ensures
            final(self).wf(),
            final(self).roomy(),
            measures_on(
                k,
                *old(self),
                PauliBasis::X,
                q as int,
                Some(desired_value),
                *final(self),
                r,
            ),
    {
        self.measure_axis(k, PauliBasis::X, q, Some(desired_value))
    }

    /// Forces the `Y` measurement of qubit `q`.
    pub fn postselect_y<K: TermKernels<A>>(&mut self, k: &K, q: usize, desired_value: bool) -> (r:
        Result<MeasureResult, SimError>)
        requires
            old(self).wf(),
            old(self).roomy(),
            register_fits(q + 1),
            well_shaped::<A, K>(k),
        ensures
            final(self).wf(),
            final(self).roomy(),
            measures_on(
                k,
                *old(self),
                PauliBasis::Y,
                q as int,
                Some(desired_value),
                *final(self),
                r,
            ),
    {
        self.measure_axis(k, PauliBasis::Y, q, Some(desired_value))
    }

    /// The bits of the expectation of `observable`, read without collapsing the
    /// state or moving the generator. The support must lie in the register.
    pub fn peek_observable_expectation<K: TermKernels<A>>(&self, k: &K, observable: &PauliString) -> (r:
        Result<u64, SimError>)
        requires
            self.wf(),
            observable.wf(),
        ensures
            peeks(k, *self, *observable, r),
    {
        match self.decompose(observable) {
            Err(e) => Err(e),
            Ok(d) => {
                let e: u64 = self.expectation_of(k, &d);
                let bits: u64 = k.bounded(e);
                assert(call_ensures(K::bounded, (k, e), bits));
                assert(reads(k, *self, d, bits));
                assert(reads_op(
                    k,
                    *self,
                    preimage_op(
                        self.core.r@,
                        observable.op_on(self.core.n as int),
                        self.core.n as int,
                    ),
                    bits,
                ));
                Ok(bits)
            },
        }
    }

    fn peek_basis<K: TermKernels<A>>(&self, k: &K, axis: PauliBasis, q: usize) -> (r: Result<
        u64,
        SimError,
    >)
        requires
            self.wf(),
        ensures
            peeks_on(k, *self, axis, q, r),
    {
        match self.peek_axis(axis, q) {
            Err(e) => Err(e),
            Ok(d) => {
                let e: u64 = self.expectation_of(k, &d);
                let bits: u64 = k.bounded(e);
                assert(call_ensures(K::bounded, (k, e), bits));
                assert(reads(k, *self, d, bits));
                assert(reads_op(k, *self, axis_row(self.core.r@, axis, q as int), bits));
                Ok(bits)
            },
        }
    }

    /// `⟨Z_q⟩`, without measuring.
    pub fn peek_z<K: TermKernels<A>>(&self, k: &K, q: usize) -> (r: Result<u64, SimError>)
        requires
            self.wf(),
        ensures
            peeks_on(k, *self, PauliBasis::Z, q, r),
    {
        self.peek_basis(k, PauliBasis::Z, q)
    }

    /// `⟨X_q⟩`, without measuring.
    pub fn peek_x<K: TermKernels<A>>(&self, k: &K, q: usize) -> (r: Result<u64, SimError>)
        requires
            self.wf(),
        ensures
            peeks_on(k, *self, PauliBasis::X, q, r),
    {
        self.peek_basis(k, PauliBasis::X, q)
    }

    /// `⟨Y_q⟩`, without measuring.
    pub fn peek_y<K: TermKernels<A>>(&self, k: &K, q: usize) -> (r: Result<u64, SimError>)
        requires
            self.wf(),
        ensures
            peeks_on(k, *self, PauliBasis::Y, q, r),
    {
        self.peek_basis(k, PauliBasis::Y, q)
    }

    /// Resets a qubit to the `+1` eigenstate of `basis`.
    pub fn reset_basis<K: TermKernels<A>>(&mut self, k: &K, basis: PauliBasis, q: usize) -> (r: Result<
        (),
        SimError,
    >)
        requires
            old(self).wf(),
            old(self).roomy(),
            register_fits(q + 1),
            well_shaped::<A, K>(k),
        ensures
            final(self).wf(),
            final(self).roomy(),
            resets(k, *old(self), basis, q as int, *final(self), r),
    {
        match self.measure_axis(k, basis, q, None) {
            Err(e) => Err(e),
            Ok(result) => {
                let ghost mid = *self;
                assert(measures_on(k, *old(self), basis, q as int, None, mid, Ok(result)));
                self.reset_correction(basis, q, result.outcome);
                Ok(())
            },
        }
    }

    /// Resets qubit `q` to `|0⟩`.
    pub fn reset<K: TermKernels<A>>(&mut self, k: &K, q: usize) -> (r: Result<(), SimError>)
        requires
            old(self).wf(),
            old(self).roomy(),
            register_fits(q + 1),
            well_shaped::<A, K>(k),
        ensures
            final(self).wf(),
            final(self).roomy(),
            resets(k, *old(self), PauliBasis::Z, q as int, *final(self), r),
    {
        self.reset_basis(k, PauliBasis::Z, q)
    }

    /// Resets qubit `q` to `|0⟩`: measures `Z_q`, and applies `X_q` after `-1`.
    pub fn reset_z<K: TermKernels<A>>(&mut self, k: &K, q: usize) -> (r: Result<(), SimError>)
        requires
            old(self).wf(),
            old(self).roomy(),
            register_fits(q + 1),
            well_shaped::<A, K>(k),
        ensures
            final(self).wf(),
            final(self).roomy(),
            resets(k, *old(self), PauliBasis::Z, q as int, *final(self), r),
    {
        self.reset_basis(k, PauliBasis::Z, q)
    }

    /// Resets qubit `q` to `|+⟩`: measures `X_q`, and applies `Z_q` after `-1`.
    pub fn reset_x<K: TermKernels<A>>(&mut self, k: &K, q: usize) -> (r: Result<(), SimError>)
        requires
            old(self).wf(),
            old(self).roomy(),
            register_fits(q + 1),
            well_shaped::<A, K>(k),
        ensures
            final(self).wf(),
            final(self).roomy(),
            resets(k, *old(self), PauliBasis::X, q as int, *final(self), r),
    {
        self.reset_basis(k, PauliBasis::X, q)
    }

    /// Resets qubit `q` to `|+i⟩`: measures `Y_q`, and applies `Z_q` after `-1`.
    pub fn reset_y<K: TermKernels<A>>(&mut self, k: &K, q: usize) -> (r: Result<(), SimError>)
        requires
            old(self).wf(),
            old(self).roomy(),
            register_fits(q + 1),
            well_shaped::<A, K>(k),
        ensures
            final(self).wf(),
            final(self).roomy(),
            resets(k, *old(self), PauliBasis::Y, q as int, *final(self), r),
    {
        self.reset_basis(k, PauliBasis::Y, q)
    }
}

} // verus!
