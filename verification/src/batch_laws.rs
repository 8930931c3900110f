//! What the rotations of a `CCZ`, the records of faulty readouts, the draws of channels
//! and the instructions of a batch amount to.
use vstd::prelude::*;
use crate::batch::{
    batch_runs, batch_step, draws_pauli, fires, flips, flips_readout, reads_out, records_value,
    BatchState,
};
use crate::collapse::measures;
use crate::evolve::{ccz_turn, rotates, MeasureResult, TermKernels, Turn};
use crate::frame::tableau_pauli;
use crate::instruction::{Instruction, Share};
use crate::pauli::{bit01, PauliString};
use crate::simulator::{ccz_operands, is_z_axis, support_end, TableauSimulator};
use crate::symbolic::is_probability;

verus! {

// ---------------------------------------------------------------------------
// CCZ
// ---------------------------------------------------------------------------
/// How many of the three qubits lie in the set.
pub open spec fn size_among(set: Set<int>, a: int, b: int, c: int) -> int {
    bit01(set.contains(a)) + bit01(set.contains(b)) + bit01(set.contains(c))
}

/// The parity of the values of those qubits that lie in the set.
pub open spec fn parity_among(
    set: Set<int>,
    a: int,
    b: int,
    c: int,
    values: (bool, bool, bool),
) -> bool {
    ((set.contains(a) && values.0) != (set.contains(b) && values.1)) != (set.contains(c) && values.2)
}

/// The eighths of a turn by which the first `i` rotations of a `CCZ` turn a basis state:
/// one forward for an odd parity on an odd number of qubits, one back for an odd parity
/// on an even number.
pub open spec fn eighths_turned(a: usize, b: usize, c: usize, values: (bool, bool, bool), i: int) -> int
    decreases i,
{
    if i <= 0 {
        0
    } else {
        let set = ccz_operands(a, b, c)[i - 1];
        let step = if parity_among(set, a as int, b as int, c as int, values) {
            1int
        } else {
            0
        };
        eighths_turned(a, b, c, values, i - 1) + if size_among(set, a as int, b as int, c as int) % 2
            == 0 {
            -step
        } else {
            step
        }
    }
}

/// Rotation `i` of a `CCZ` is about `Z` on its operands: by an eighth of a turn, forward
/// where they are an odd number of qubits and back where they are an even one.
pub proof fn law_ccz_turns_forward_on_odd_operands<A: Copy, K: TermKernels<A>>(
    k: &K,
    before: TableauSimulator<A>,
    a: usize,
    b: usize,
    c: usize,
    i: int,
    axis: PauliString,
    after: TableauSimulator<A>,
    r: Result<(), crate::sim_error::SimError>,
)
    requires
        a != b,
        a != c,
        b != c,
        0 <= i < 7,
        ccz_turn(k, before, a, b, c, i, axis, after, r),
    ensures
        ({
            let operands = ccz_operands(a, b, c)[i];
            &&& is_z_axis(axis, operands)
            &&& size_among(operands, a as int, b as int, c as int) % 2 == 1 ==> rotates(
                k,
                before,
                axis,
                (Turn::Eighth { adjoint: false }),
                after,
                r,
            )
            &&& size_among(operands, a as int, b as int, c as int) % 2 == 0 ==> rotates(
                k,
                before,
                axis,
                (Turn::Eighth { adjoint: true }),
                after,
                r,
            )
        }),
{
}

/// Together the seven rotations of a `CCZ` turn a basis state by half a turn where all
/// three qubits are set, and leave every other basis state alone.
pub proof fn law_ccz_negates_the_state_with_all_set(
    a: usize,
    b: usize,
    c: usize,
    values: (bool, bool, bool),
)
    requires
        a != b,
        a != c,
        b != c,
    ensures
        eighths_turned(a, b, c, values, 7) == if values.0 && values.1 && values.2 {
            4int
        } else {
            0
        },
{
    reveal_with_fuel(eighths_turned, 8);
    let s = ccz_operands(a, b, c);
    let (p, q, r) = (a as int, b as int, c as int);
    assert(s[0].contains(p) && !s[0].contains(q) && !s[0].contains(r));
    assert(!s[1].contains(p) && s[1].contains(q) && !s[1].contains(r));
    assert(!s[2].contains(p) && !s[2].contains(q) && s[2].contains(r));
    assert(s[3].contains(p) && s[3].contains(q) && !s[3].contains(r));
    assert(s[4].contains(p) && !s[4].contains(q) && s[4].contains(r));
    assert(!s[5].contains(p) && s[5].contains(q) && s[5].contains(r));
    assert(s[6].contains(p) && s[6].contains(q) && s[6].contains(r));
}

// ---------------------------------------------------------------------------
// Records
// ---------------------------------------------------------------------------
/// A record behind a faulty readout is what was measured, turned round exactly where an
/// event of the readout's probability was drawn; the state is the measured one.
pub proof fn law_a_readout_turns_its_record_round<A: Copy, K: TermKernels<A>>(
    k: &K,
    before: TableauSimulator<A>,
    observable: PauliString,
    probability: u64,
    after: TableauSimulator<A>,
    result: MeasureResult,
)
    requires
        reads_out(k, before, observable, probability, after, Ok(result)),
    ensures
        is_probability(probability),
        exists|mid: TableauSimulator<A>, raw: MeasureResult, rng: u64, flipped: bool|
            {
                &&& #[trigger] measures(k, before, observable, None, mid, Ok(raw))
                &&& #[trigger] call_ensures(
                    K::bernoulli,
                    (k, probability, mid.core.rng),
                    (rng, flipped),
                )
                &&& flipped ==> result.outcome == !raw.outcome
                &&& !flipped ==> result.outcome == raw.outcome
                &&& after.terms == mid.terms
                &&& after.core.r == mid.core.r
                &&& after.core.n == mid.core.n
            },
{
    assert(flips_readout(k, before, observable, probability, after, result));
}

/// A classical record is the given value, turned round exactly where an event of the
/// given probability was drawn; the state is left alone.
pub proof fn law_a_record_holds_its_value<A: Copy, K: TermKernels<A>>(
    k: &K,
    before: TableauSimulator<A>,
    value: bool,
    probability: u64,
    after: TableauSimulator<A>,
    result: MeasureResult,
)
    requires
        records_value(k, before, value, probability, after, Ok(result)),
    ensures
        is_probability(probability),
        after.terms == before.terms,
        after.core.r == before.core.r,
        after.core.n == before.core.n,
        exists|rng: u64, flipped: bool|
            {
                &&& #[trigger] call_ensures(
                    K::bernoulli,
                    (k, probability, before.core.rng),
                    (rng, flipped),
                )
                &&& flipped ==> result.outcome == !value
                &&& !flipped ==> result.outcome == value
            },
{
    assert(flips(k, before, value, probability, after, result));
}

/// A channel that fired applied one of its alternatives, and one that did not changed
/// nothing; a heralded channel records which, another records nothing. The amplitudes
/// are as before.
pub proof fn law_heralds_tell_whether_a_pauli_fired<A: Copy, K: TermKernels<A>>(
    k: &K,
    before: TableauSimulator<A>,
    shares: Seq<Share>,
    alternatives: Seq<PauliString>,
    heralded: bool,
    after: TableauSimulator<A>,
    made: Seq<MeasureResult>,
)
    requires
        draws_pauli(k, before, shares, alternatives, heralded, after, made, Ok(())),
    ensures
        shares.len() == alternatives.len(),
        made.len() == if heralded {
            1int
        } else {
            0
        },
        heralded && !made[0].outcome ==> after.core.r == before.core.r && after.terms == before.terms,
        heralded && made[0].outcome ==> exists|i: int|
            0 <= i < alternatives.len() && struck_by(before, #[trigger] alternatives[i], after),
        !heralded ==> (after.core.r == before.core.r && after.terms == before.terms) || exists|i: int|
            0 <= i < alternatives.len() && struck_by(before, #[trigger] alternatives[i], after),
{
    assert(fires(k, before, shares, alternatives, heralded, after, made));
    let (given, rng, selected, total) = choose|
        given: Vec<Share>,
        rng: u64,
        selected: Option<usize>,
        total: u64,
    |
        {
            &&& given@ == shares
            &&& #[trigger] call_ensures(
                K::alternative,
                (k, given, before.core.rng),
                Ok((rng, selected, total)),
            )
            &&& match selected {
                Some(i) => i < alternatives.len() && crate::batch::applies_pauli(
                    crate::collapse::moved(before, rng),
                    alternatives[i as int],
                    after,
                ),
                None => crate::batch::only_draws(before, rng, after),
            }
            &&& if heralded {
                &&& made.len() == 1
                &&& made[0].outcome == selected is Some
                &&& call_ensures(
                    K::event_chance,
                    (k, total, selected is Some),
                    (made[0].probability, made[0].deterministic),
                )
            } else {
                made.len() == 0
            }
        };
    if let Some(i) = selected {
        assert(struck_by(before, alternatives[i as int], after));
    }
}

/// A Pauli was applied: the preimages that anticommute with it are negated, and the
/// amplitudes are the same.
pub open spec fn struck_by<A: Copy>(
    before: TableauSimulator<A>,
    p: PauliString,
    after: TableauSimulator<A>,
) -> bool {
    let n = after.core.n as int;
    &&& crate::simulator::same_terms(after.terms@, before.terms@)
    &&& after.core.r@ == tableau_pauli(
        before.grown_frame(support_end(p)),
        p.op_on(n).x,
        p.op_on(n).z,
    )
}

// ---------------------------------------------------------------------------
// Batches
// ---------------------------------------------------------------------------
/// One more instruction appends its records and values behind those of the instructions
/// before it, and the peak is the larger of the peak before it and the rank it leaves.
pub proof fn law_batches_append_what_they_produce<A: Copy, K: TermKernels<A>>(
    k: &K,
    program: Seq<Instruction>,
    i: int,
    start: TableauSimulator<A>,
    s: BatchState<A>,
)
    requires
        0 < i <= program.len(),
        batch_runs(k, program, i, start, s),
    ensures
        exists|p: BatchState<A>|
            {
                &&& #[trigger] batch_runs(k, program, i - 1, start, p)
                &&& p.records.is_prefix_of(s.records)
                &&& p.values.is_prefix_of(s.values)
                &&& p.peak <= s.peak
                &&& s.sim.terms@.len() <= s.peak
                &&& s.peak == p.peak || s.peak == s.sim.terms@.len()
            },
{
    let (p, made, read) = choose|p: BatchState<A>, made: Seq<MeasureResult>, read: Seq<u64>|
        batch_runs(k, program, i - 1, start, p) && #[trigger] batch_step(
            k,
            program[i - 1],
            p,
            s,
            made,
            read,
        );
    assert(p.records =~= s.records.take(p.records.len() as int));
    assert(p.values =~= s.values.take(p.values.len() as int));
}

} // verus!
