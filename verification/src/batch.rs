//! Replaying a list of instructions on a simulator.
//!
//! A batch is the loop a caller would write by hand over the same operations,
//! its failures too: an error ends the batch where it happened, so the simulator
//! reflects the instructions before it.
use vstd::prelude::*;
use crate::collapse::{measures, peeks, resets};
use crate::evolve::{
    is_finite, rotates, rotates_basis, well_shaped, MeasureResult, TermKernels, Turn,
};
use crate::frame::tableau_pauli;
use crate::gates::tableau_gate1;
use crate::instruction::{
    actions, addressable, circuit_actions, on_register, Circuit, Instruction, Share,
};
use crate::pauli::PauliString;
use crate::sim_error::SimError;
use crate::simulator::{
    gate2_result, support_end, tableau_basis_pauli, TableauSimulator,
};
use crate::symbolic::{check_probability, is_probability};

verus! {

/// What a batch produced.
#[derive(Clone, Debug, PartialEq, Eq)]
pub struct BatchOutcome {
    /// Measurement, explicit-record and herald records in batch order.
    pub records: Vec<MeasureResult>,
    /// The bits of one value per expectation, in batch order.
    pub expectation_values: Vec<u64>,
    /// Highest rank observed after any instruction, or zero for an empty batch.
    pub max_rank: usize,
}

impl Default for BatchOutcome {
    fn default() -> (r: BatchOutcome)
        ensures
            r.records@ == Seq::<MeasureResult>::empty(),
            r.expectation_values@ == Seq::<u64>::empty(),
            r.max_rank == 0,
    {
        BatchOutcome { records: Vec::new(), expectation_values: Vec::new(), max_rank: 0 }
    }
}

/// The state after a Pauli string.
pub open spec fn applies_pauli<A: Copy>(
    before: TableauSimulator<A>,
    p: PauliString,
    after: TableauSimulator<A>,
) -> bool {
    let n = after.core.n as int;
    after.after_gate(
        &before,
        support_end(p),
        tableau_pauli(before.grown_frame(support_end(p)), p.op_on(n).x, p.op_on(n).z),
    )
}

/// The state after a Pauli on one qubit.
pub open spec fn applies_basis<A: Copy>(
    before: TableauSimulator<A>,
    basis: crate::pauli::PauliBasis,
    q: int,
    after: TableauSimulator<A>,
) -> bool {
    after.after_gate(
        &before,
        q + 1,
        tableau_basis_pauli(before.grown_frame(q + 1), basis, q),
    )
}

/// Everything but the generator is the same.
pub open spec fn only_draws<A: Copy>(
    before: TableauSimulator<A>,
    rng: u64,
    after: TableauSimulator<A>,
) -> bool {
    after == crate::collapse::moved(before, rng)
}

/// What appending a classical record does: the value is flipped by a drawn event.
pub open spec fn records_value<A: Copy, K: TermKernels<A>>(
    k: &K,
    before: TableauSimulator<A>,
    value: bool,
    flip_probability: u64,
    after: TableauSimulator<A>,
    r: Result<MeasureResult, SimError>,
) -> bool {
    if !is_probability(flip_probability) {
        r == Err::<MeasureResult, SimError>(SimError::InvalidProbability(flip_probability)) && after
            == before
    } else {
        r is Ok && flips(k, before, value, flip_probability, after, r->Ok_0)
    }
}

/// A record of `value` flipped by a drawn event.
pub open spec fn flips<A: Copy, K: TermKernels<A>>(
    k: &K,
    before: TableauSimulator<A>,
    value: bool,
    flip_probability: u64,
    after: TableauSimulator<A>,
    result: MeasureResult,
) -> bool {
    exists|rng: u64, flipped: bool|
        {
            &&& #[trigger] call_ensures(
                K::bernoulli,
                (k, flip_probability, before.core.rng),
                (rng, flipped),
            )
            &&& only_draws(before, rng, after)
            &&& result.outcome == (value != flipped)
            &&& call_ensures(
                K::event_chance,
                (k, flip_probability, flipped),
                (result.probability, result.deterministic),
            )
        }
}

/// What measuring behind a faulty readout does.
pub open spec fn reads_out<A: Copy, K: TermKernels<A>>(
    k: &K,
    before: TableauSimulator<A>,
    observable: PauliString,
    probability: u64,
    after: TableauSimulator<A>,
    r: Result<MeasureResult, SimError>,
) -> bool {
    if !is_probability(probability) {
        r == Err::<MeasureResult, SimError>(SimError::InvalidProbability(probability)) && after
            == before
    } else {
        match r {
            Err(e) => measures(k, before, observable, None, after, Err(e)),
            Ok(result) => flips_readout(k, before, observable, probability, after, result),
        }
    }
}

/// A measurement whose recorded bit is flipped by a drawn event.
pub open spec fn flips_readout<A: Copy, K: TermKernels<A>>(
    k: &K,
    before: TableauSimulator<A>,
    observable: PauliString,
    probability: u64,
    after: TableauSimulator<A>,
    result: MeasureResult,
) -> bool {
    exists|mid: TableauSimulator<A>, raw: MeasureResult, rng: u64, flipped: bool|
        {
            &&& #[trigger] measures(k, before, observable, None, mid, Ok(raw))
            &&& #[trigger] call_ensures(
                K::bernoulli,
                (k, probability, mid.core.rng),
                (rng, flipped),
            )
            &&& only_draws(mid, rng, after)
            &&& result.outcome == (raw.outcome != flipped)
            &&& call_ensures(
                K::readout_chance,
                (k, raw, result.outcome, probability),
                (result.probability, result.deterministic),
            )
        }
}

/// What a channel does: at most one alternative is drawn and applied, and a
/// heralded channel records whether one fired. Lists of different lengths are
/// refused before anything is drawn.
pub open spec fn draws_pauli<A: Copy, K: TermKernels<A>>(
    k: &K,
    before: TableauSimulator<A>,
    shares: Seq<Share>,
    alternatives: Seq<PauliString>,
    heralded: bool,
    after: TableauSimulator<A>,
    made: Seq<MeasureResult>,
    r: Result<(), SimError>,
) -> bool {
    if shares.len() != alternatives.len() {
        &&& r == Err::<(), SimError>(SimError::InvalidProbabilityDistribution)
        &&& after == before
        &&& made.len() == 0
    } else {
        match r {
            Err(e) => after == before && made.len() == 0 && refuses_shares::<A, K>(
                k,
                shares,
                before.core.rng,
                e,
            ),
            Ok(_) => fires(k, before, shares, alternatives, heralded, after, made),
        }
    }
}

/// The draw of an alternative is refused.
pub open spec fn refuses_shares<A: Copy, K: TermKernels<A>>(
    k: &K,
    shares: Seq<Share>,
    rng: u64,
    e: SimError,
) -> bool {
    exists|given: Vec<Share>|
        given@ == shares && #[trigger] call_ensures(K::alternative, (k, given, rng), Err(e))
}

/// An alternative, or none, is drawn and applied.
pub open spec fn fires<A: Copy, K: TermKernels<A>>(
    k: &K,
    before: TableauSimulator<A>,
    shares: Seq<Share>,
    alternatives: Seq<PauliString>,
    heralded: bool,
    after: TableauSimulator<A>,
    made: Seq<MeasureResult>,
) -> bool {
    exists|given: Vec<Share>, rng: u64, selected: Option<usize>, total: u64|
        {
            &&& given@ == shares
            &&& #[trigger] call_ensures(
                K::alternative,
                (k, given, before.core.rng),
                Ok((rng, selected, total)),
            )
            &&& match selected {
                Some(i) => i < alternatives.len() && applies_pauli(
                    crate::collapse::moved(before, rng),
                    alternatives[i as int],
                    after,
                ),
                None => only_draws(before, rng, after),
            }
            &&& if heralded {
                &&& made.len() == 1
                &&& made[0].outcome == selected is Some
                &&& call_ensures(
                    K::event_chance,
                    (k, total, selected is Some),
                    (made[0].probability, made[0].deterministic),
                )
            } else {
                made.len() == 0
            }
        }
}

/// What one instruction does: the records it appends, the values it reads, and
/// how it ends.
pub open spec fn performs<A: Copy, K: TermKernels<A>>(
    k: &K,
    ins: Instruction,
    before: TableauSimulator<A>,
    records: Seq<MeasureResult>,
    after: TableauSimulator<A>,
    made: Seq<MeasureResult>,
    read: Seq<u64>,
    r: Result<(), SimError>,
) -> bool {
    &&& !(ins is Expectation) ==> read.len() == 0
    &&& match ins {
        Instruction::Gate1 { gate, qubit } => {
            &&& r is Ok
            &&& made.len() == 0
            &&& after.after_gate(
                &before,
                qubit + 1,
                tableau_gate1(before.grown_frame(qubit + 1), gate, qubit as int),
            )
        },
        Instruction::Gate2 { control, target, control_qubit, target_qubit } => {
            &&& made.len() == 0
            &&& gate2_result(&before, &after, r, control, target, control_qubit, target_qubit)
        },
        Instruction::Pauli { basis, qubit } => {
            &&& r is Ok
            &&& made.len() == 0
            &&& applies_basis(before, basis, qubit as int, after)
        },
        Instruction::T { basis, qubit, adjoint } => {
            &&& made.len() == 0
            &&& rotates_basis(k, before, basis, qubit as int, adjoint, after, r)
        },
        Instruction::TPauli { axis, adjoint } => {
            &&& made.len() == 0
            &&& rotates(k, before, axis, (Turn::Eighth { adjoint }), after, r)
        },
        Instruction::PauliRotation { axis, kernel_angle } => {
            &&& made.len() == 0
            &&& if !is_finite(kernel_angle) {
                r == Err::<(), SimError>(SimError::InvalidRotationAngle(kernel_angle)) && after
                    == before
            } else {
                rotates(k, before, axis, (Turn::Angle { kernel_angle }), after, r)
            }
        },
        Instruction::Measure(observable) => match r {
            Err(e) => made.len() == 0 && measures(k, before, observable, None, after, Err(e)),
            Ok(_) => made.len() == 1 && measures(k, before, observable, None, after, Ok(made[0])),
        },
        Instruction::MeasureWithReadoutError { observable, probability } => match r {
            Err(e) => made.len() == 0 && reads_out(
                k,
                before,
                observable,
                probability,
                after,
                Err(e),
            ),
            Ok(_) => made.len() == 1 && reads_out(
                k,
                before,
                observable,
                probability,
                after,
                Ok(made[0]),
            ),
        },
        Instruction::Record { value, flip_probability } => match r {
            Err(e) => made.len() == 0 && records_value(
                k,
                before,
                value,
                flip_probability,
                after,
                Err(e),
            ),
            Ok(_) => made.len() == 1 && records_value(
                k,
                before,
                value,
                flip_probability,
                after,
                Ok(made[0]),
            ),
        },
        Instruction::RandomPauli { probabilities, alternatives, heralded } => draws_pauli(
            k,
            before,
            probabilities@,
            alternatives@,
            heralded,
            after,
            made,
            r,
        ),
        Instruction::Expectation(observable) => {
            &&& after == before
            &&& made.len() == 0
            &&& match r {
                Err(e) => read.len() == 0 && peeks(k, before, observable, Err(e)),
                Ok(_) => read.len() == 1 && peeks(k, before, observable, Ok(read[0])),
            }
        },
        Instruction::Reset { basis, qubit } => {
            &&& made.len() == 0
            &&& resets(k, before, basis, qubit as int, after, r)
        },
        Instruction::ConditionalPauli { basis, qubit, control } => {
            &&& made.len() == 0
            &&& if control >= records.len() {
                &&& r == Err::<(), SimError>(SimError::MissingBatchRecord { index: control })
                &&& after == before
            } else if records[control as int].outcome {
                r is Ok && applies_basis(before, basis, qubit as int, after)
            } else {
                r is Ok && after == before
            }
        },
    }
}

/// The larger of two ranks.
pub open spec fn peak(a: int, b: int) -> int {
    if a < b {
        b
    } else {
        a
    }
}

/// A simulator in the middle of a batch, with what the batch produced so far.
#[verifier::reject_recursive_types(A)]
#[verifier::ext_equal]
pub struct BatchState<A> {
    pub sim: TableauSimulator<A>,
    pub records: Seq<MeasureResult>,
    pub values: Seq<u64>,
    pub peak: int,
}

/// One instruction leads from `p` to `s`.
pub open spec fn batch_step<A: Copy, K: TermKernels<A>>(
    k: &K,
    ins: Instruction,
    p: BatchState<A>,
    s: BatchState<A>,
    made: Seq<MeasureResult>,
    read: Seq<u64>,
) -> bool {
    &&& performs(k, ins, p.sim, p.records, s.sim, made, read, Ok(()))
    &&& s.records == p.records + made
    &&& s.values == p.values + read
    &&& s.peak == peak(p.peak, s.sim.terms@.len() as int)
}

/// The first `i` instructions lead from `start` to `s`.
pub open spec fn batch_runs<A: Copy, K: TermKernels<A>>(
    k: &K,
    program: Seq<Instruction>,
    i: int,
    start: TableauSimulator<A>,
    s: BatchState<A>,
) -> bool
    decreases i,
{
    if i <= 0 {
        s == BatchState {
            sim: start,
            records: Seq::<MeasureResult>::empty(),
            values: Seq::<u64>::empty(),
            peak: 0,
        }
    } else {
        exists|p: BatchState<A>, made: Seq<MeasureResult>, read: Seq<u64>|
            batch_runs(k, program, i - 1, start, p) && #[trigger] batch_step(
                k,
                program[i - 1],
                p,
                s,
                made,
                read,
            )
    }
}

/// An instruction fails with `e` after the ones before it, and leaves `after`.
pub open spec fn batch_stops<A: Copy, K: TermKernels<A>>(
    k: &K,
    program: Seq<Instruction>,
    start: TableauSimulator<A>,
    after: TableauSimulator<A>,
    e: SimError,
) -> bool {
    exists|i: int, p: BatchState<A>|
        {
            &&& 0 <= i < program.len()
            &&& #[trigger] batch_runs(k, program, i, start, p)
            &&& performs(
                k,
                program[i],
                p.sim,
                p.records,
                after,
                Seq::<MeasureResult>::empty(),
                Seq::<u64>::empty(),
                Err(e),
            )
        }
}

/// How a batch ends.
pub open spec fn batch_ends<A: Copy, K: TermKernels<A>>(
    k: &K,
    program: Seq<Instruction>,
    start: TableauSimulator<A>,
    after: TableauSimulator<A>,
    r: Result<BatchOutcome, SimError>,
) -> bool {
    match r {
        Ok(outcome) => batch_runs(
            k,
            program,
            program.len() as int,
            start,
            (BatchState {
                sim: after,
                records: outcome.records@,
                values: outcome.expectation_values@,
                peak: outcome.max_rank as int,
            }),
        ),
        Err(e) => batch_stops(k, program, start, after, e),
    }
}

/// How the instructions of a circuit end on a register that holds it.
pub open spec fn circuit_ends<A: Copy, K: TermKernels<A>>(
    k: &K,
    circuit: Circuit,
    before: TableauSimulator<A>,
    after: TableauSimulator<A>,
    r: Result<BatchOutcome, SimError>,
) -> bool {
    let n = circuit.nqubits as int;
    exists|program: Seq<Instruction>, start: TableauSimulator<A>|
        {
            &&& actions(program) == circuit_actions(circuit)
            &&& start.after_gate(&before, n, before.grown_frame(n))
            &&& #[trigger] batch_ends(k, program, start, after, r)
        }
}

impl<A: Copy> TableauSimulator<A> {
    /// Appends a classical record.
    fn append_record<K: TermKernels<A>>(&mut self, k: &K, value: bool, flip_probability: u64) -> (r:
        Result<MeasureResult, SimError>)
        requires
            old(self).wf(),
            old(self).roomy(),
        ensures
            final(self).wf(),
            final(self).roomy(),
            records_value(k, *old(self), value, flip_probability, *final(self), r),
    {
        match check_probability(flip_probability) {
            Err(_) => Err(SimError::InvalidProbability(flip_probability)),
            Ok(_) => {
                let (rng, flipped): (u64, bool) = k.bernoulli(flip_probability, self.core.rng);
                assert(call_ensures(
                    K::bernoulli,
                    (k, flip_probability, old(self).core.rng),
                    (rng, flipped),
                ));
                self.core.rng = rng;
                assert(only_draws(*old(self), rng, *self));
                let (probability, deterministic): (u64, bool) = k.event_chance(
                    flip_probability,
                    flipped,
                );
                let result = MeasureResult { outcome: value != flipped, probability, deterministic };
                assert(flips(k, *old(self), value, flip_probability, *self, result));
                Ok(result)
            },
        }
    }

    /// Measures and flips the recorded bit by a drawn event.
    fn measure_with_readout_error<K: TermKernels<A>>(
        &mut self,
        k: &K,
        observable: &PauliString,
        probability: u64,
    ) -> (r: Result<MeasureResult, SimError>)
        requires
            old(self).wf(),
            old(self).roomy(),
            on_register(*observable),
            well_shaped::<A, K>(k),
        ensures
            final(self).wf(),
            final(self).roomy(),
            reads_out(k, *old(self), *observable, probability, *final(self), r),
    {
        match check_probability(probability) {
            Err(_) => {
                return Err(SimError::InvalidProbability(probability));
            },
            Ok(_) => {},
        }
        let raw: MeasureResult = match self.measure_observable(k, observable) {
            Err(e) => {
                return Err(e);
            },
            Ok(raw) => raw,
        };
        let ghost mid = *self;
        let (rng, flipped): (u64, bool) = k.bernoulli(probability, self.core.rng);
        assert(call_ensures(K::bernoulli, (k, probability, mid.core.rng), (rng, flipped)));
        self.core.rng = rng;
        assert(only_draws(mid, rng, *self));
        let outcome: bool = raw.outcome != flipped;
        let (chance, deterministic): (u64, bool) = k.readout_chance(raw, outcome, probability);
        let result = MeasureResult { outcome, probability: chance, deterministic };
        assert(measures(k, *old(self), *observable, None, mid, Ok(raw)));
        assert(flips_readout(k, *old(self), *observable, probability, *self, result));
        Ok(result)
    }

    /// Draws at most one alternative of a channel and applies it. The record is
    /// that of a heralded channel.
    fn apply_random_pauli<K: TermKernels<A>>(
        &mut self,
        k: &K,
        shares: &Vec<Share>,
        alternatives: &Vec<PauliString>,
        heralded: bool,
    ) -> (r: Result<Option<MeasureResult>, SimError>)
        requires
            old(self).wf(),
            old(self).roomy(),
            forall|i: int|
                0 <= i < alternatives@.len() ==> on_register(#[trigger] alternatives@[i]),
            well_shaped::<A, K>(k),
        ensures
            final(self).wf(),
            final(self).roomy(),
            draws_pauli(
                k,
                *old(self),
                shares@,
                alternatives@,
                heralded,
                *final(self),
                made_of(r),
                ended(r),
            ),
    {
        if shares.len() != alternatives.len() {
            return Err(SimError::InvalidProbabilityDistribution);
        }
        let given: Vec<Share> = copy_shares(shares);
        let ghost handed = given;
        let drawn = k.alternative(given, self.core.rng);
        assert(call_ensures(K::alternative, (k, handed, old(self).core.rng), drawn));
        let (rng, selected, total): (u64, Option<usize>, u64) = match drawn {
            Err(e) => {
                assert(refuses_shares::<A, K>(k, shares@, old(self).core.rng, e));
                return Err(e);
            },
            Ok(d) => d,
        };
        self.core.rng = rng;
        let ghost moved = *self;
        assert(moved == crate::collapse::moved(*old(self), rng));
        if let Some(i) = selected {
            self.pauli(&alternatives[i]);
        }
        let herald: Option<MeasureResult> = if heralded {
            let fired: bool = selected.is_some();
            let (probability, deterministic): (u64, bool) = k.event_chance(total, fired);
            Some(MeasureResult { outcome: fired, probability, deterministic })
        } else {
            None
        };
        proof {
            let done: Result<Option<MeasureResult>, SimError> = Ok(herald);
            assert(fires(
                k,
                *old(self),
                shares@,
                alternatives@,
                heralded,
                *self,
                made_of(done),
            ));
        }
        Ok(herald)
    }

    /// Performs one instruction.
    fn apply_instruction<K: TermKernels<A>>(
        &mut self,
        k: &K,
        instruction: &Instruction,
        outcome: &mut BatchOutcome,
    ) -> (r: Result<(), SimError>)
        requires
            old(self).wf(),
            old(self).roomy(),
            addressable(*instruction),
            well_shaped::<A, K>(k),
        ensures
            final(self).wf(),
            final(self).roomy(),
            final(outcome).max_rank == old(outcome).max_rank,
            grows(old(outcome).records@, final(outcome).records@),
            grows(old(outcome).expectation_values@, final(outcome).expectation_values@),
            performs(
                k,
                *instruction,
                *old(self),
                old(outcome).records@,
                *final(self),
                gained(old(outcome).records@, final(outcome).records@),
                gained(old(outcome).expectation_values@, final(outcome).expectation_values@),
                r,
            ),
    {
        match instruction {
            Instruction::Gate1 { gate, qubit } => {
                self.gate1(*gate, *qubit);
                Ok(())
            },
            Instruction::Gate2 { control, target, control_qubit, target_qubit } => {
                self.gate2(*control, *target, *control_qubit, *target_qubit)
            },
            Instruction::Pauli { basis, qubit } => {
                self.basis_pauli(*basis, *qubit);
                Ok(())
            },
            Instruction::T { basis, qubit, adjoint } => self.t_basis(k, *basis, *qubit, *adjoint),
            Instruction::TPauli { axis, adjoint } => self.t_pauli(k, axis, *adjoint),
            Instruction::PauliRotation { axis, kernel_angle } => {
                self.pauli_rotation(k, axis, *kernel_angle)
            },
            Instruction::Measure(observable) => {
                match self.measure_observable(k, observable) {
                    Err(e) => Err(e),
                    Ok(result) => {
                        outcome.records.push(result);
                        Ok(())
                    },
                }
            },
            Instruction::MeasureWithReadoutError { observable, probability } => {
                match self.measure_with_readout_error(k, observable, *probability) {
                    Err(e) => Err(e),
                    Ok(result) => {
                        outcome.records.push(result);
                        Ok(())
                    },
                }
            },
            Instruction::Record { value, flip_probability } => {
                match self.append_record(k, *value, *flip_probability) {
                    Err(e) => Err(e),
                    Ok(result) => {
                        outcome.records.push(result);
                        Ok(())
                    },
                }
            },
            Instruction::RandomPauli { probabilities, alternatives, heralded } => {
                let drawn = self.apply_random_pauli(k, probabilities, alternatives, *heralded);
                match drawn {
                    Err(e) => {
                        assert(made_of(drawn) =~= gained(outcome.records@, outcome.records@));
                        Err(e)
                    },
                    Ok(herald) => {
                        match herald {
                            Some(result) => {
                                outcome.records.push(result);
                            },
                            None => {},
                        }
                        assert(made_of(drawn) =~= gained(old(outcome).records@, outcome.records@));
                        Ok(())
                    },
                }
            },
            Instruction::Expectation(observable) => {
                match self.peek_observable_expectation(k, observable) {
                    Err(e) => Err(e),
                    Ok(bits) => {
                        outcome.expectation_values.push(bits);
                        Ok(())
                    },
                }
            },
            Instruction::Reset { basis, qubit } => self.reset_basis(k, *basis, *qubit),
            Instruction::ConditionalPauli { basis, qubit, control } => {
                if *control >= outcome.records.len() {
                    return Err(SimError::MissingBatchRecord { index: *control });
                }
                if outcome.records[*control].outcome {
                    self.basis_pauli(*basis, *qubit);
                }
                Ok(())
            },
        }
    }

    /// Runs `instructions` in order, collecting every record and value. An error
    /// ends the batch where it happened: the simulator reflects the instructions
    /// before the failure, and what they recorded is lost.
    pub fn apply_batch<K: TermKernels<A>>(&mut self, k: &K, instructions: &Vec<Instruction>) -> (r:
        Result<BatchOutcome, SimError>)
        requires
            old(self).wf(),
            old(self).roomy(),
            forall|i: int|
                0 <= i < instructions@.len() ==> addressable(#[trigger] instructions@[i]),
            well_shaped::<A, K>(k),
        ensures
            final(self).wf(),
            final(self).roomy(),
            batch_ends(k, instructions@, *old(self), *final(self), r),
    {
        let mut outcome: BatchOutcome = BatchOutcome::default();
        let ghost start = *self;
        let ghost program = instructions@;
        let ghost mut state = BatchState {
            sim: *self,
            records: outcome.records@,
            values: outcome.expectation_values@,
            peak: 0,
        };
        assert(batch_runs(k, program, 0, start, state));
        let mut i: usize = 0;
        while i < instructions.len()
            invariant
                i <= program.len(),
                program == instructions@,
                start == *old(self),
                self.wf(),
                self.roomy(),
                forall|j: int| 0 <= j < program.len() ==> addressable(#[trigger] program[j]),
                well_shaped::<A, K>(k),
                state.sim == *self,
                state.records == outcome.records@,
                state.values == outcome.expectation_values@,
                state.peak == outcome.max_rank,
                batch_runs(k, program, i as int, start, state),
            decreases program.len() - i,
        {
            let ghost prior = state;
            let ghost held = outcome;
            let done = self.apply_instruction(k, &instructions[i], &mut outcome);
            let ghost reached = *self;
            match done {
                Err(e) => {
                    proof {
                        lemma_failed_makes_nothing(
                            k,
                            program[i as int],
                            prior.sim,
                            prior.records,
                            *self,
                            gained(held.records@, outcome.records@),
                            gained(held.expectation_values@, outcome.expectation_values@),
                            e,
                        );
                        assert(batch_stops(k, program, start, *self, e));
                    }
                    return Err(e);
                },
                Ok(u) => {
                    assert(u == ());
                },
            }
            let ghost made = gained(held.records@, outcome.records@);
            let ghost read = gained(held.expectation_values@, outcome.expectation_values@);
            assert(performs(
                k,
                program[i as int],
                prior.sim,
                prior.records,
                reached,
                made,
                read,
                done,
            ));
            let rank: usize = self.rank();
            if outcome.max_rank < rank {
                outcome.max_rank = rank;
            }
            i += 1;
            proof {
                state = BatchState {
                    sim: *self,
                    records: outcome.records@,
                    values: outcome.expectation_values@,
                    peak: outcome.max_rank as int,
                };
                assert(done == Ok::<(), SimError>(()));
                assert(state.records =~= prior.records + made);
                assert(state.values =~= prior.values + read);
                assert(batch_step(k, program[i - 1], prior, state, made, read));
                assert(batch_runs(k, program, i - 1, start, prior));
            }
        }
        Ok(outcome)
    }

    /// Applies a circuit, returning its records. Annotations add nothing to the
    /// outcome. A failure leaves the operations before it applied.
    pub fn apply_circuit<K: TermKernels<A>>(&mut self, k: &K, circuit: &Circuit) -> (r: Result<
        BatchOutcome,
        SimError,
    >)
        requires
            old(self).wf(),
            old(self).roomy(),
            circuit.wf(),
            circuit.addressable(),
            well_shaped::<A, K>(k),
        ensures
            final(self).wf(),
            final(self).roomy(),
            circuit_ends(k, *circuit, *old(self), *final(self), r),
    {
        let instructions: Vec<Instruction> = Instruction::from_circuit(circuit);
        self.ensure_qubits(circuit.nqubits);
        let ghost start = *self;
        let r = self.apply_batch(k, &instructions);
        assert(batch_ends(k, instructions@, start, *self, r));
        r
    }
}

/// `longer` starts with `shorter`.
pub open spec fn grows<T>(shorter: Seq<T>, longer: Seq<T>) -> bool {
    shorter.len() <= longer.len() && longer.take(shorter.len() as int) =~= shorter
}

/// What `longer` holds behind `shorter`.
pub open spec fn gained<T>(shorter: Seq<T>, longer: Seq<T>) -> Seq<T> {
    longer.skip(shorter.len() as int)
}

/// The records of a channel.
pub open spec fn made_of(r: Result<Option<MeasureResult>, SimError>) -> Seq<MeasureResult> {
    match r {
        Ok(Some(result)) => seq![result],
        _ => Seq::empty(),
    }
}

/// How a channel ended.
pub open spec fn ended(r: Result<Option<MeasureResult>, SimError>) -> Result<(), SimError> {
    match r {
        Ok(_) => Ok(()),
        Err(e) => Err(e),
    }
}

/// A failed instruction appends nothing.
proof fn lemma_failed_makes_nothing<A: Copy, K: TermKernels<A>>(
    k: &K,
    ins: Instruction,
    before: TableauSimulator<A>,
    records: Seq<MeasureResult>,
    after: TableauSimulator<A>,
    made: Seq<MeasureResult>,
    read: Seq<u64>,
    e: SimError,
)
    requires
        performs(k, ins, before, records, after, made, read, Err(e)),
    ensures
        made == Seq::<MeasureResult>::empty(),
        read == Seq::<u64>::empty(),
{
    assert(made =~= Seq::<MeasureResult>::empty());
    assert(read =~= Seq::<u64>::empty());
}

fn copy_shares(shares: &Vec<Share>) -> (r: Vec<Share>)
    ensures
        r@ == shares@,
{
    let mut out: Vec<Share> = Vec::new();
    let mut i: usize = 0;
    while i < shares.len()
        invariant
            i <= shares@.len(),
            out@ == shares@.take(i as int),
        decreases shares@.len() - i,
    {
        out.push(shares[i]);
        assert(shares@.take(i + 1) =~= shares@.take(i as int).push(shares@[i as int]));
        i += 1;
    }
    assert(shares@.take(i as int) =~= shares@);
    out
}

} // verus!
