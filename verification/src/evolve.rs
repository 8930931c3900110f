//! Rotations, measurements and resets of the tableau simulator.
//!
//! The simulator decides what is rotated, projected and corrected; the arithmetic
//! on amplitudes and the draw of an outcome are the caller's, given as an
//! implementation of [`TermKernels`]. The specifications relate the state after an
//! operation to what such an implementation gave for the state before it.
use vstd::prelude::*;
use crate::bits::row_bit;
use crate::frame::{preimage_op, register_fits, Frame};
use crate::gates::{axis_row, tableau_from_z, tableau_to_z};
use crate::instruction::Share;
use crate::label::{same_bits, Label};
use crate::pauli::{dot_parity, words_dot, PauliBasis, PauliString, RowPauli};
use crate::sim_error::SimError;
use crate::simulator::{
    ccz_operands, grown_n, is_eigen_plus, is_z_axis, lemma_same_terms_chain, need_both, support_end,
    xor_words, Core, Decomposition, PairRewrite, PairSlot, TableauSimulator,
};
use crate::terms::{lex_less, live, Term};

verus! {

/// Which rotation a term takes part in.
#[allow(inconsistent_fields)]
#[derive(Clone, Copy, Debug, PartialEq, Eq, Structural)]
pub enum Turn {
    /// `cos(π/8)·I ∓ i·sin(π/8)·P`, with the `+` sign where `adjoint` is set.
    Eighth { adjoint: bool },
    /// `exp(-i·angle·P)`, the angle given by the bits of a double.
    Angle { kernel_angle: u64 },
}

/// What a measurement reported.
#[derive(Clone, Copy, Debug, PartialEq, Eq, Structural)]
pub struct MeasureResult {
    /// `false` for the `+1` eigenvalue.
    pub outcome: bool,
    /// The bits of the probability the reported outcome had.
    pub probability: u64,
    /// Whether the outcome was fixed beforehand.
    pub deterministic: bool,
}

/// How an off-diagonal operator pairs the live labels: its phase exponent, the
/// parity `⟨a, b⟩`, and a slot for every label.
#[derive(Clone, Debug, PartialEq, Eq)]
pub struct CosetPairs {
    pub phase: u8,
    pub flip: bool,
    pub slots: Vec<PairSlot>,
}

/// Arithmetic on the amplitudes of the live labels, in slot order. Probabilities,
/// expectations and thresholds are given by the bits of a double, and the
/// generator by its position.
pub trait TermKernels<A>: Sized {
    /// The amplitudes after a rotation about a frame-diagonal axis; `plus` tells
    /// the `+1` eigenstates.
    fn turn_diagonal(&self, turn: Turn, values: Vec<A>, plus: Vec<bool>) -> Vec<A>;

    /// The rewrite of a rotation about an off-diagonal axis.
    fn turn_pairs(
        &self,
        turn: Turn,
        pairs: CosetPairs,
        values: Vec<A>,
        epsilon: u64,
    ) -> PairRewrite<A>;

    /// The expectation of a frame-diagonal observable.
    fn expect_diagonal(&self, values: Vec<A>, plus: Vec<bool>) -> u64;

    /// The expectation of an off-diagonal observable.
    fn expect_pairs(&self, pairs: CosetPairs, values: Vec<A>) -> u64;

    /// The expectation, held to the range from -1 to 1.
    fn bounded(&self, expectation: u64) -> u64;

    /// Draws an outcome of an observable with this expectation, and moves the
    /// generator on.
    fn draw(&self, expectation: u64, rng: u64) -> (u64, bool);

    /// The probability of an outcome.
    fn chance(&self, expectation: u64, outcome: bool) -> u64;

    /// Whether an outcome of this probability cannot be selected.
    fn negligible(&self, probability: u64) -> bool;

    /// Whether the outcome is fixed by the expectation.
    fn certain(&self, expectation: u64) -> bool;

    /// The amplitudes of the labels in `kept`, rescaled, and which amplitudes
    /// survive pruning.
    fn project_diagonal(&self, values: Vec<A>, kept: Vec<bool>, epsilon: u64) -> (Vec<A>, Vec<bool>);

    /// The rewrite of a projection onto an outcome of an off-diagonal observable;
    /// `pivots` holds the pivot bit of every label.
    fn project_pairs(
        &self,
        outcome: bool,
        pairs: CosetPairs,
        pivots: Vec<bool>,
        values: Vec<A>,
        epsilon: u64,
    ) -> PairRewrite<A>;

    /// Draws an event of this probability, and moves the generator on.
    fn bernoulli(&self, probability: u64, rng: u64) -> (u64, bool);

    /// Draws at most one alternative: the generator moved on, the alternative,
    /// and the total probability. Refuses a share that is no probability, and
    /// shares that sum past 1.
    fn alternative(&self, shares: Vec<Share>, rng: u64) -> Result<
        (u64, Option<usize>, u64),
        SimError,
    >;

    /// The probability of an event, or of its absence, and whether it was fixed.
    fn event_chance(&self, probability: u64, happened: bool) -> (u64, bool);

    /// The probability of a recorded bit behind a readout that flips with this
    /// probability, and whether it was fixed.
    fn readout_chance(&self, raw: MeasureResult, recorded: bool, probability: u64) -> (u64, bool);
}

/// A rewrite has one entry per slot, and a partner gains an amplitude only where
/// none is live.
pub open spec fn shaped<A>(rewrite: PairRewrite<A>, slots: Seq<PairSlot>) -> bool {
    &&& rewrite.values@.len() == slots.len()
    &&& rewrite.keep@.len() == slots.len()
    &&& rewrite.sent@.len() == slots.len()
    &&& forall|i: int|
        0 <= i < slots.len() && (#[trigger] rewrite.sent@[i]) is Some ==> slots[i].partner is None
}

/// Every result has one entry per live label, and an alternative exists.
pub open spec fn well_shaped<A, K: TermKernels<A>>(k: &K) -> bool {
    &&& forall|turn: Turn, values: Vec<A>, plus: Vec<bool>, o: Vec<A>| #[trigger]
        call_ensures(K::turn_diagonal, (k, turn, values, plus), o) ==> o@.len() == values@.len()
    &&& forall|turn: Turn, pairs: CosetPairs, values: Vec<A>, epsilon: u64, o: PairRewrite<A>|
        #[trigger]
        call_ensures(K::turn_pairs, (k, turn, pairs, values, epsilon), o) ==> shaped(
            o,
            pairs.slots@,
        )
    &&& forall|values: Vec<A>, kept: Vec<bool>, epsilon: u64, o: (Vec<A>, Vec<bool>)| #[trigger]
        call_ensures(K::project_diagonal, (k, values, kept, epsilon), o) ==> o.0@.len()
            == values@.len() && o.1@.len() == values@.len()
    &&& forall|
        outcome: bool,
        pairs: CosetPairs,
        pivots: Vec<bool>,
        values: Vec<A>,
        epsilon: u64,
        o: PairRewrite<A>,
    | #[trigger]
        call_ensures(K::project_pairs, (k, outcome, pairs, pivots, values, epsilon), o) ==> shaped(
            o,
            pairs.slots@,
        )
    &&& forall|shares: Vec<Share>, rng: u64, o: Result<(u64, Option<usize>, u64), SimError>|
        #[trigger]
        call_ensures(K::alternative, (k, shares, rng), o) ==> match o {
            Ok((_, Some(i), _)) => i < shares@.len(),
            _ => true,
        }
}

/// The amplitudes in slot order.
pub open spec fn values_of<A>(terms: Seq<Term<A>>) -> Seq<A> {
    Seq::new(terms.len(), |i: int| terms[i].value)
}

/// Which labels are `+1` eigenstates.
pub open spec fn plus_of<A>(terms: Seq<Term<A>>, d: Decomposition) -> Seq<bool> {
    Seq::new(terms.len(), |i: int| is_eigen_plus(&d, terms[i].label.0@))
}

/// A bit of every label.
pub open spec fn bits_of<A>(terms: Seq<Term<A>>, at: int) -> Seq<bool> {
    Seq::new(terms.len(), |i: int| row_bit(terms[i].label.0@, at))
}

/// The slots pair every label with its coset partner.
pub open spec fn pairs_labels<A>(
    slots: Seq<PairSlot>,
    terms: Seq<Term<A>>,
    d: Decomposition,
) -> bool {
    &&& slots.len() == terms.len()
    &&& forall|i: int|
        0 <= i < slots.len() ==> (#[trigger] slots[i]).sign == words_dot(
            terms[i].label.0@,
            d.b.0@,
        ) && match slots[i].partner {
            Some(j) => j < terms.len() && terms[j as int].label.0@ == xor_words(
                terms[i].label.0@,
                d.a.0@,
            ),
            None => !live(terms, xor_words(terms[i].label.0@, d.a.0@)),
        }
}

/// The pairing an operator induces.
pub open spec fn pairing<A>(pairs: CosetPairs, terms: Seq<Term<A>>, d: Decomposition) -> bool {
    &&& pairs.phase == d.phase
    &&& pairs.flip == words_dot(d.a.0@, d.b.0@)
    &&& pairs_labels(pairs.slots@, terms, d)
}

/// The lowest qubit the coset shift flips.
pub open spec fn is_pivot(d: Decomposition, pivot: int, n: int) -> bool {
    &&& 0 <= pivot < n
    &&& row_bit(d.a.0@, pivot)
    &&& forall|i: int| i < pivot ==> !#[trigger] row_bit(d.a.0@, i)
}

/// What is refused when a rewrite would leave `rank` labels.
pub open spec fn rank_refusal(rank: int, cap: usize, epsilon: u64) -> Option<SimError> {
    if rank == 0 {
        Some(SimError::EmptyStateAfterPruning { epsilon })
    } else if rank > cap {
        Some(SimError::RankOverflow { rank: rank as usize, cap })
    } else {
        None
    }
}

/// The rewrite is installed, or refused with the state as it was.
pub open spec fn rewrites<A: Copy>(
    before: TableauSimulator<A>,
    d: Decomposition,
    rewrite: PairRewrite<A>,
    after: TableauSimulator<A>,
    r: Result<(), SimError>,
) -> bool {
    let rank = before.rewritten_rank(&rewrite);
    match rank_refusal(rank, before.core.rank_cap, before.core.prune_epsilon) {
        Some(e) => r == Err::<(), SimError>(e) && after == before,
        None => {
            &&& r is Ok
            &&& after.wf()
            &&& after.core == before.core
            &&& after.terms@.len() == rank
            &&& before.rewritten(&d, &rewrite, after.terms@)
        },
    }
}

/// The amplitudes are replaced label by label, unless the cap is below the rank.
pub open spec fn replaces<A: Copy>(
    before: TableauSimulator<A>,
    values: Seq<A>,
    after: TableauSimulator<A>,
    r: Result<(), SimError>,
) -> bool {
    if before.terms@.len() > before.core.rank_cap {
        &&& r == Err::<(), SimError>(
            SimError::RankOverflow {
                rank: before.terms@.len() as usize,
                cap: before.core.rank_cap,
            },
        )
        &&& after == before
    } else {
        &&& r is Ok
        &&& after.wf()
        &&& after.core == before.core
        &&& after.terms@.len() == before.terms@.len()
        &&& forall|i: int|
            0 <= i < values.len() ==> (#[trigger] after.terms@[i]).label == before.terms@[i].label
                && after.terms@[i].value == values[i]
    }
}

/// What a rotation about a decomposed axis does.
pub open spec fn turns<A: Copy, K: TermKernels<A>>(
    k: &K,
    before: TableauSimulator<A>,
    d: Decomposition,
    turn: Turn,
    after: TableauSimulator<A>,
    r: Result<(), SimError>,
) -> bool {
    if d.diagonal() {
        exists|values: Vec<A>, plus: Vec<bool>, out: Vec<A>|
            {
                &&& values@ == values_of(before.terms@)
                &&& plus@ == plus_of(before.terms@, d)
                &&& #[trigger] call_ensures(K::turn_diagonal, (k, turn, values, plus), out)
                &&& replaces(before, out@, after, r)
            }
    } else {
        exists|pairs: CosetPairs, values: Vec<A>, out: PairRewrite<A>|
            {
                &&& values@ == values_of(before.terms@)
                &&& pairing(pairs, before.terms@, d)
                &&& #[trigger] call_ensures(
                    K::turn_pairs,
                    (k, turn, pairs, values, before.core.prune_epsilon),
                    out,
                )
                &&& rewrites(before, d, out, after, r)
            }
    }
}

/// The register covers the support of `axis`, and `d` is the axis in the frame.
pub open spec fn begins<A: Copy>(
    before: TableauSimulator<A>,
    axis: PauliString,
    mid: TableauSimulator<A>,
    d: Decomposition,
) -> bool {
    let n = mid.core.n as int;
    &&& mid.after_gate(&before, support_end(axis), before.grown_frame(support_end(axis)))
    &&& d.wf(n, mid.core.words as int)
    &&& d.op(n) == preimage_op(mid.core.r@, axis.op_on(n), n)
    &&& d.op(n).hermitian()
}

/// The register covers qubit `q`, and `d` is the basis axis in the frame.
pub open spec fn begins_on<A: Copy>(
    before: TableauSimulator<A>,
    axis: PauliBasis,
    q: int,
    mid: TableauSimulator<A>,
    d: Decomposition,
) -> bool {
    let n = mid.core.n as int;
    &&& mid.after_gate(&before, q + 1, before.grown_frame(q + 1))
    &&& d.wf(n, mid.core.words as int)
    &&& d.op(n) == axis_row(mid.core.r@, axis, q)
    &&& d.op(n).hermitian()
}

/// What a rotation about a Pauli does. An axis with an imaginary coefficient is
/// refused and changes nothing.
pub open spec fn rotates<A: Copy, K: TermKernels<A>>(
    k: &K,
    before: TableauSimulator<A>,
    axis: PauliString,
    turn: Turn,
    after: TableauSimulator<A>,
    r: Result<(), SimError>,
) -> bool {
    if !axis.op().hermitian() {
        r == Err::<(), SimError>(SimError::NonHermitianPauli) && after == before
    } else {
        exists|mid: TableauSimulator<A>, d: Decomposition|
            #[trigger] begins(before, axis, mid, d) && turns(k, mid, d, turn, after, r)
    }
}

/// What a rotation about a basis axis of one qubit does.
pub open spec fn rotates_on<A: Copy, K: TermKernels<A>>(
    k: &K,
    before: TableauSimulator<A>,
    axis: PauliBasis,
    q: int,
    turn: Turn,
    after: TableauSimulator<A>,
    r: Result<(), SimError>,
) -> bool {
    exists|mid: TableauSimulator<A>, d: Decomposition|
        #[trigger] begins_on(before, axis, q, mid, d) && turns(k, mid, d, turn, after, r)
}

impl<A: Copy> TableauSimulator<A> {
    /// The ranks that occur can be counted.
    pub open spec fn roomy(&self) -> bool {
        &&& 2 * self.terms@.len() <= usize::MAX
        &&& 2 * self.core.rank_cap <= usize::MAX
    }

    /// The amplitudes in slot order.
    pub fn amplitudes(&self) -> (r: Vec<A>)
        ensures
            r@ == values_of(self.terms@),
    {
        let mut out: Vec<A> = Vec::new();
        let mut i: usize = 0;
        while i < self.terms.len()
            invariant
                i <= self.terms@.len(),
                out@ == values_of(self.terms@).take(i as int),
            decreases self.terms@.len() - i,
        {
            out.push(self.terms[i].value);
            proof {
                assert(values_of(self.terms@).take(i + 1) =~= values_of(self.terms@).take(
                    i as int,
                ).push(self.terms@[i as int].value));
            }
            i += 1;
        }
        proof {
            assert(values_of(self.terms@).take(i as int) =~= values_of(self.terms@));
        }
        out
    }

    /// The pairing of the live labels under an operator.
    pub fn coset_pairs(&self, d: &Decomposition) -> (r: CosetPairs)
        requires
            self.wf(),
            d.wf(self.core.n as int, self.core.words as int),
        ensures
            pairing(r, self.terms@, *d),
    {
        let flip: bool = dot_parity(d.a.0.as_slice(), d.b.0.as_slice());
        CosetPairs { phase: d.phase, flip, slots: self.pair_slots(d) }
    }

    /// Rotates about a decomposed axis.
    fn turn_decomposed<K: TermKernels<A>>(&mut self, k: &K, d: &Decomposition, turn: Turn) -> (r:
        Result<(), SimError>)
        requires
            old(self).wf(),
            old(self).roomy(),
            d.wf(old(self).core.n as int, old(self).core.words as int),
            well_shaped::<A, K>(k),
        ensures
            final(self).wf(),
            final(self).roomy(),
            final(self).core.n == old(self).core.n,
            turns(k, *old(self), *d, turn, *final(self), r),
    {
        let values: Vec<A> = self.amplitudes();
        if d.is_diagonal() {
            let plus: Vec<bool> = self.eigen_plus(d);
            assert(plus@ =~= plus_of(self.terms@, *d));
            let ghost given = values;
            let ghost signs = plus;
            let out: Vec<A> = k.turn_diagonal(turn, values, plus);
            assert(call_ensures(K::turn_diagonal, (k, turn, given, signs), out));
            let r = self.commit_diagonal(&out);
            assert(replaces(*old(self), out@, *self, r));
            r
        } else {
            let pairs: CosetPairs = self.coset_pairs(d);
            let ghost given = values;
            let ghost paired = pairs;
            let out: PairRewrite<A> = k.turn_pairs(turn, pairs, values, self.core.prune_epsilon);
            assert(call_ensures(
                K::turn_pairs,
                (k, turn, paired, given, old(self).core.prune_epsilon),
                out,
            ));
            let r = self.commit_pair_rewrite(d, &out);
            assert(rewrites(*old(self), *d, out, *self, r));
            r
        }
    }

    /// Applies `T_P(±) = cos(π/8)·I ∓ i·sin(π/8)·P` about a Pauli axis; `adjoint`
    /// selects `T†`. The register grows to cover the support.
    pub fn t_pauli<K: TermKernels<A>>(&mut self, k: &K, axis: &PauliString, adjoint: bool) -> (r:
        Result<(), SimError>)
        requires
            old(self).wf(),
            old(self).roomy(),
            axis.wf(),
            register_fits(axis.nqubits as int),
            well_shaped::<A, K>(k),
        ensures
            final(self).wf(),
            final(self).roomy(),
            rotates(k, *old(self), *axis, Turn::Eighth { adjoint }, *final(self), r),
    {
        match self.begin_axis(axis) {
            Err(e) => Err(e),
            Ok(d) => {
                let ghost mid = *self;
                assert(begins(*old(self), *axis, mid, d));
                self.turn_decomposed(k, &d, Turn::Eighth { adjoint })
            },
        }
    }

    /// Applies `exp(-i·angle·P)` about a Pauli axis, the angle given by its bits.
    /// An angle that is no finite number is refused.
    pub fn pauli_rotation<K: TermKernels<A>>(
        &mut self,
        k: &K,
        axis: &PauliString,
        kernel_angle: u64,
    ) -> (r: Result<(), SimError>)
        requires
            old(self).wf(),
            old(self).roomy(),
            axis.wf(),
            register_fits(axis.nqubits as int),
            well_shaped::<A, K>(k),
        ensures
            final(self).wf(),
            final(self).roomy(),
            if !is_finite(kernel_angle) {
                r == Err::<(), SimError>(SimError::InvalidRotationAngle(kernel_angle))
                    && *final(self) == *old(self)
            } else {
                rotates(k, *old(self), *axis, Turn::Angle { kernel_angle }, *final(self), r)
            },
    {
        if kernel_angle % SIGN_BIT >= INFINITY_BITS {
            return Err(SimError::InvalidRotationAngle(kernel_angle));
        }
        match self.begin_axis(axis) {
            Err(e) => Err(e),
            Ok(d) => {
                let ghost mid = *self;
                assert(begins(*old(self), *axis, mid, d));
                self.turn_decomposed(k, &d, Turn::Angle { kernel_angle })
            },
        }
    }

    /// A rotation about a basis axis of one qubit.
    fn t_about<K: TermKernels<A>>(&mut self, k: &K, axis: PauliBasis, q: usize, adjoint: bool) -> (r:
        Result<(), SimError>)
        requires
            old(self).wf(),
            old(self).roomy(),
            register_fits(q + 1),
            well_shaped::<A, K>(k),
        ensures
            final(self).wf(),
            final(self).roomy(),
            final(self).core.n > q,
            rotates_on(k, *old(self), axis, q as int, Turn::Eighth { adjoint }, *final(self), r),
    {
        let d: Decomposition = self.begin_basis(axis, q);
        let ghost mid = *self;
        assert(begins_on(*old(self), axis, q as int, mid, d));
        self.turn_decomposed(k, &d, Turn::Eighth { adjoint })
    }

    /// `T` on qubit `q`.
    pub fn t<K: TermKernels<A>>(&mut self, k: &K, q: usize) -> (r: Result<(), SimError>)
        requires
            old(self).wf(),
            old(self).roomy(),
            register_fits(q + 1),
            well_shaped::<A, K>(k),
        ensures
            final(self).wf(),
            final(self).roomy(),
            rotates_on(
                k,
                *old(self),
                PauliBasis::Z,
                q as int,
                (Turn::Eighth { adjoint: false }),
                *final(self),
                r,
            ),
    {
        self.t_about(k, PauliBasis::Z, q, false)
    }

    /// `T†` on qubit `q`.
    pub fn t_dag<K: TermKernels<A>>(&mut self, k: &K, q: usize) -> (r: Result<(), SimError>)
        requires
            old(self).wf(),
            old(self).roomy(),
            register_fits(q + 1),
            well_shaped::<A, K>(k),
        ensures
            final(self).wf(),
            final(self).roomy(),
            rotates_on(
                k,
                *old(self),
                PauliBasis::Z,
                q as int,
                (Turn::Eighth { adjoint: true }),
                *final(self),
                r,
            ),
    {
        self.t_about(k, PauliBasis::Z, q, true)
    }

    /// `T` or `T†` about a single-qubit basis axis, as the `Z` rotation conjugated
    /// by the basis change. The register comes back in its own basis also where
    /// the rotation is refused.
    pub fn t_basis<K: TermKernels<A>>(
        &mut self,
        k: &K,
        basis: PauliBasis,
        qubit: usize,
        adjoint: bool,
    ) -> (r: Result<(), SimError>)
        requires
            old(self).wf(),
            old(self).roomy(),
            register_fits(qubit + 1),
            well_shaped::<A, K>(k),
        ensures
            final(self).wf(),
            final(self).roomy(),
            rotates_basis(k, *old(self), basis, qubit as int, adjoint, *final(self), r),
    {
        self.ensure_qubits(qubit + 1);
        let ghost wide = *self;
        self.basis_to_z(basis, qubit);
        let ghost start = *self;
        proof {
            lemma_same_terms_chain(start.terms@, wide.terms@, old(self).terms@);
            assert(start.after_gate(
                old(self),
                qubit + 1,
                tableau_to_z(old(self).grown_frame(qubit + 1), basis, qubit as int),
            ));
        }
        let rotated = self.t_about(k, PauliBasis::Z, qubit, adjoint);
        let ghost mid = *self;
        self.z_to_basis(basis, qubit);
        assert(rotates_on(
            k,
            start,
            PauliBasis::Z,
            qubit as int,
            Turn::Eighth { adjoint },
            mid,
            rotated,
        ));
        rotated
    }

    /// A copy with the same frame, terms and settings.
    fn duplicate(&self) -> (r: Self)
        requires
            self.wf(),
        ensures
            r.after_gate(self, 0, self.core.r@),
    {
        let mut rows: Vec<RowPauli> = Vec::new();
        let mut i: usize = 0;
        while i < self.core.r.rows.len()
            invariant
                i <= self.core.r.rows@.len(),
                rows@.len() == i,
                forall|j: int|
                    0 <= j < i ==> (#[trigger] rows@[j]).x@ == self.core.r.rows@[j].x@ && rows@[j].z@
                        == self.core.r.rows@[j].z@ && rows@[j].phase == self.core.r.rows@[j].phase,
            decreases self.core.r.rows@.len() - i,
        {
            let row: &RowPauli = &self.core.r.rows[i];
            let x: Vec<u64> = row.x.clone();
            let z: Vec<u64> = row.z.clone();
            assert(x@ =~= row.x@ && z@ =~= row.z@);
            rows.push(RowPauli { x, z, phase: row.phase });
            i += 1;
        }
        let mut terms: Vec<Term<A>> = Vec::new();
        let mut j: usize = 0;
        while j < self.terms.len()
            invariant
                j <= self.terms@.len(),
                terms@.len() == j,
                forall|m: int|
                    0 <= m < j ==> (#[trigger] terms@[m]).label.0@ == self.terms@[m].label.0@
                        && terms@[m].value == self.terms@[m].value,
            decreases self.terms@.len() - j,
        {
            let words: Vec<u64> = self.terms[j].label.0.clone();
            assert(words@ =~= self.terms@[j as int].label.0@);
            terms.push(Term { label: Label(words), value: self.terms[j].value });
            j += 1;
        }
        let frame = Frame { n: self.core.r.n, words: self.core.r.words, rows };
        proof {
            assert forall|r: int| 0 <= r < frame.rows@.len() implies (#[trigger] frame.rows@[r]).wf(
                frame.n as int,
                frame.words as int,
            ) by {
                assert(self.core.r.rows@[r].wf(frame.n as int, frame.words as int));
            }
            assert forall|r: int| 0 <= r < frame.rows@.len() implies #[trigger] frame@[r]
                == self.core.r@[r] by {
                assert(frame.rows@[r].op(frame.n as int) == self.core.r.rows@[r].op(
                    frame.n as int,
                ));
            }
            assert(frame@ =~= self.core.r@);
            assert forall|m: int| 0 <= m < terms@.len() implies same_bits(
                (#[trigger] terms@[m]).label.0@,
                self.terms@[m].label.0@,
            ) && terms@[m].value == self.terms@[m].value by {
            }
            assert forall|a: int, b: int| 0 <= a < b < terms@.len() implies lex_less(
                #[trigger] terms@[a].label.0@,
                #[trigger] terms@[b].label.0@,
            ) by {
                assert(lex_less(self.terms@[a].label.0@, self.terms@[b].label.0@));
            }
        }
        TableauSimulator {
            core: Core {
                n: self.core.n,
                words: self.core.words,
                r: frame,
                rng: self.core.rng,
                prune_epsilon: self.core.prune_epsilon,
                rank_cap: self.core.rank_cap,
            },
            terms,
        }
    }

    /// Applies `CCZ` on three distinct qubits as seven `π/8` rotations: `T` on the
    /// three single `Z` axes, `T†` on the three pairs, `T` on the triple. An error
    /// leaves the simulator unchanged.
    pub fn ccz<K: TermKernels<A>>(&mut self, k: &K, a: usize, b: usize, c: usize) -> (r: Result<
        (),
        SimError,
    >)
        requires
            old(self).wf(),
            old(self).roomy(),
            register_fits(need_three(a, b, c)),
            well_shaped::<A, K>(k),
        ensures
            final(self).wf(),
            final(self).roomy(),
            match r {
                Ok(_) => a != b && a != c && b != c && ccz_runs(
                    k,
                    *old(self),
                    a,
                    b,
                    c,
                    7,
                    *final(self),
                ),
                Err(e) => {
                    &&& *final(self) == *old(self)
                    &&& if a == b || a == c {
                        e == SimError::RepeatedQubit(a)
                    } else if b == c {
                        e == SimError::RepeatedQubit(b)
                    } else {
                        ccz_stops(k, *old(self), a, b, c, e)
                    }
                },
            },
    {
        let ghost before = *self;
        let axes: Vec<(PauliString, bool)> = match self.ccz_axes(a, b, c) {
            Ok(axes) => axes,
            Err(e) => {
                return Err(e);
            },
        };
        let pair: usize = if a < b {
            b
        } else {
            a
        };
        let top: usize = if pair < c {
            c
        } else {
            pair
        };
        let mut next: Self = self.duplicate();
        let ghost copy = next;
        next.ensure_qubits(top + 1);
        proof {
            lemma_same_terms_chain(next.terms@, copy.terms@, before.terms@);
            assert(ccz_runs(k, before, a, b, c, 0, next));
        }
        let mut i: usize = 0;
        while i < 7
            invariant
                i <= 7,
                *self == *old(self),
                before == *old(self),
                before.wf(),
                before.roomy(),
                a != b && a != c && b != c,
                register_fits(need_three(a, b, c)),
                register_fits(before.core.n as int),
                axes@.len() == 7,
                forall|j: int|
                    0 <= j < 7 ==> is_z_axis((#[trigger] axes@[j]).0, ccz_operands(a, b, c)[j])
                        && axes@[j].1 == (3 <= j < 6) && axes@[j].0.nqubits == grown_n(
                        before.core.n as int,
                        need_three(a, b, c),
                    ),
                next.wf(),
                next.roomy(),
                well_shaped::<A, K>(k),
                ccz_runs(k, before, a, b, c, i as int, next),
            decreases 7 - i,
        {
            let ghost mid = next;
            let ghost axis = axes@[i as int].0;
            assert(axis.wf());
            match next.t_pauli(k, &axes[i].0, axes[i].1) {
                Err(e) => {
                    assert(ccz_turn(k, mid, a, b, c, i as int, axis, next, Err(e)));
                    return Err(e);
                },
                Ok(_) => {},
            }
            i += 1;
            proof {
                let turned: Result<(), SimError> = Ok(());
                assert(rotates(
                    k,
                    mid,
                    axis,
                    (Turn::Eighth { adjoint: 3 <= i - 1 < 6 }),
                    next,
                    turned,
                ));
                assert(ccz_turn(k, mid, a, b, c, i - 1, axis, next, turned));
                assert(ccz_runs(k, before, a, b, c, i - 1, mid));
            }
        }
        *self = next;
        Ok(())
    }
}

/// What [`TableauSimulator::t_basis`] does.
pub open spec fn rotates_basis<A: Copy, K: TermKernels<A>>(
    k: &K,
    before: TableauSimulator<A>,
    basis: PauliBasis,
    q: int,
    adjoint: bool,
    after: TableauSimulator<A>,
    r: Result<(), SimError>,
) -> bool {
    exists|start: TableauSimulator<A>, mid: TableauSimulator<A>|
        {
            &&& start.after_gate(
                &before,
                q + 1,
                tableau_to_z(before.grown_frame(q + 1), basis, q),
            )
            &&& #[trigger] rotates_on(
                k,
                start,
                PauliBasis::Z,
                q,
                (Turn::Eighth { adjoint }),
                mid,
                r,
            )
            &&& after.after_gate(&mid, q + 1, tableau_from_z(mid.core.r@, basis, q))
        }
}

/// The largest of three qubits, plus one.
pub open spec fn need_three(a: usize, b: usize, c: usize) -> int {
    need_both(need_both(a as int, b as int) - 1, c as int)
}

/// The rotation of a `CCZ` numbered `i`.
pub open spec fn ccz_turn<A: Copy, K: TermKernels<A>>(
    k: &K,
    before: TableauSimulator<A>,
    a: usize,
    b: usize,
    c: usize,
    i: int,
    axis: PauliString,
    after: TableauSimulator<A>,
    r: Result<(), SimError>,
) -> bool {
    &&& is_z_axis(axis, ccz_operands(a, b, c)[i])
    &&& rotates(k, before, axis, (Turn::Eighth { adjoint: 3 <= i < 6 }), after, r)
}

/// The first `i` rotations of a `CCZ` lead from `before` to `after`.
pub open spec fn ccz_runs<A: Copy, K: TermKernels<A>>(
    k: &K,
    before: TableauSimulator<A>,
    a: usize,
    b: usize,
    c: usize,
    i: int,
    after: TableauSimulator<A>,
) -> bool
    decreases i,
{
    if i <= 0 {
        let need = need_three(a, b, c);
        after.after_gate(&before, need, before.grown_frame(need))
    } else {
        exists|mid: TableauSimulator<A>, axis: PauliString|
            #[trigger] ccz_turn(k, mid, a, b, c, i - 1, axis, after, Ok(())) && ccz_runs(
                k,
                before,
                a,
                b,
                c,
                i - 1,
                mid,
            )
    }
}

/// A rotation of a `CCZ` fails with `e` after the ones before it.
pub open spec fn ccz_stops<A: Copy, K: TermKernels<A>>(
    k: &K,
    before: TableauSimulator<A>,
    a: usize,
    b: usize,
    c: usize,
    e: SimError,
) -> bool {
    exists|
        i: int,
        mid: TableauSimulator<A>,
        axis: PauliString,
        after: TableauSimulator<A>,
    |
        {
            &&& 0 <= i < 7
            &&& ccz_runs(k, before, a, b, c, i, mid)
            &&& #[trigger] ccz_turn(k, mid, a, b, c, i, axis, after, Err(e))
        }
}

/// The weight of a double's sign bit.
pub const SIGN_BIT: u64 = 0x8000_0000_0000_0000;

/// The bits of positive infinity: larger magnitudes are not numbers.
pub const INFINITY_BITS: u64 = 0x7ff0_0000_0000_0000;

/// Whether the bits are those of a finite double.
pub open spec fn is_finite(bits: u64) -> bool {
    bits % SIGN_BIT < INFINITY_BITS
}

} // verus!
