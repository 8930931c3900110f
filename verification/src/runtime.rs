//! Execution of single instructions on a batch.
use vstd::prelude::*;
use crate::bits::{row_bit, row_bits};
use crate::errors::{Result, TicitError};
use crate::executor::{filled_list, BatchFactoredExecutorState};
use crate::kernels::{lawful, ActiveKernels};
use crate::model::{
    assign, coin_words, coins, detector_outcomes, detector_refusal, records_exist, records_parity,
    signs, step_split, step_whole, unit_bits, values_match, write_branch, write_exp,
    write_measurement, with_records, Block,
};
use crate::parts::{
    deactivate_component, execute_batch_component_promotion, measure_part_batch,
    measure_precomputed_active_pauli_expectation_batch, merge_batch_components,
    promote_first_dormant_rotation_batch, rotate_pauli_batch, write_batch_expectation_values,
};
use crate::program::{
    ActiveComponentPlan, ActiveComponentStepKind, FactoredInstruction, RecordDetector,
};
use crate::refine::{
    lemma_block_detector, lemma_block_record, lemma_block_rng, lemma_block_symbol,
};
use crate::signs::BatchSignSource;
use crate::symbolic::SymbolicBoolEvaluationPlan;
use crate::symbols::{
    assign_batch_symbol, batch_bit_at, eval_symbolic_bool_batch, invert_batch_bits,
    write_batch_detector_record, write_record, xor_plane,
};

verus! {

broadcast use crate::bits::group_word_bits;

/// The bits of the double one.
pub const ONE_BITS: u64 = 0x3ff0_0000_0000_0000;

/// The bits of the double minus one.
pub const MINUS_ONE_BITS: u64 = 0xbff0_0000_0000_0000;

// ---------------------------------------------------------------------------
// Symbols, records and detectors
// ---------------------------------------------------------------------------
proof fn lemma_values_match<A: Copy>(
    runtime: &BatchFactoredExecutorState<A>,
    c: i32,
    bits: Seq<u64>,
    first: int,
)
    requires
        runtime.planes_wf(),
        runtime.known().contains(c),
    ensures
        values_match(runtime.block(first), c, row_bits(bits, runtime.active_shots as int))
            == runtime.holds(c, bits),
{
    let b = runtime.block(first);
    let row = row_bits(bits, runtime.active_shots as int);
    if runtime.holds(c, bits) {
        assert forall|s: int| 0 <= s < b.shots.len() implies (#[trigger] b.shots[s]).values[c]
            == row[s] by {
            assert(runtime.value_bit(c, s) == row_bit(bits, s));
        }
    }
    if values_match(b, c, row) {
        assert forall|s: int| 0 <= s < runtime.active_shots implies #[trigger] runtime.value_bit(c, s)
            == row_bit(bits, s) by {
            assert(b.shots[s].values[c] == row[s]);
        }
    }
}

/// Gives a symbol its values.
pub fn assign_symbol<A: Copy>(
    runtime: &mut BatchFactoredExecutorState<A>,
    condition: i32,
    bits: &[u64],
) -> (r: Result<()>)
    requires
        old(runtime).ready(),
        bits@.len() >= old(runtime).live_words(),
    ensures
        final(runtime).same_frame(old(runtime)),
        final(runtime).active_shots == old(runtime).active_shots,
        match r {
            Ok(_) => final(runtime).ready() && forall|first: int|
                assign(
                    #[trigger] old(runtime).block(first),
                    condition,
                    row_bits(bits@, old(runtime).active_shots as int),
                ) == Ok::<Block<A>, Seq<char>>(final(runtime).block(first)),
            Err(e) => forall|first: int|
                assign(
                    #[trigger] old(runtime).block(first),
                    condition,
                    row_bits(bits@, old(runtime).active_shots as int),
                ) == Err::<Block<A>, Seq<char>>(e@),
        },
{
    let r: Result<()> = assign_batch_symbol(runtime, condition, bits);
    proof {
        let row = row_bits(bits@, old(runtime).active_shots as int);
        if old(runtime).has_slot(condition) && old(runtime).assigned(condition) {
            assert(old(runtime).known().contains(condition));
            assert forall|first: int|
                values_match(#[trigger] old(runtime).block(first), condition, row) == old(
                    runtime,
                ).holds(condition, bits@) by {
                lemma_values_match(old(runtime), condition, bits@, first);
            }
        } else if old(runtime).has_slot(condition) {
            assert(!old(runtime).known().contains(condition));
            assert forall|first: int| r is Ok implies crate::model::with_values(
                #[trigger] old(runtime).block(first),
                condition,
                row,
            ) == runtime.block(first) by {
                lemma_block_symbol(old(runtime), runtime, condition, bits@, first);
            }
            if r is Ok {
                lemma_block_symbol(old(runtime), runtime, condition, bits@, 0);
            }
        }
    }
    r
}

/// Gives a symbol its values, where one is named.
pub fn assign_batch_symbol_opt<A: Copy>(
    runtime: &mut BatchFactoredExecutorState<A>,
    condition: Option<i32>,
    bits: &[u64],
) -> (r: Result<()>)
    requires
        old(runtime).ready(),
        bits@.len() >= old(runtime).live_words(),
    ensures
        final(runtime).same_frame(old(runtime)),
        final(runtime).active_shots == old(runtime).active_shots,
        condition is None ==> r is Ok && *final(runtime) == *old(runtime),
        condition is Some ==> match r {
            Ok(_) => final(runtime).ready() && forall|first: int|
                assign(
                    #[trigger] old(runtime).block(first),
                    condition->0,
                    row_bits(bits@, old(runtime).active_shots as int),
                ) == Ok::<Block<A>, Seq<char>>(final(runtime).block(first)),
            Err(e) => forall|first: int|
                assign(
                    #[trigger] old(runtime).block(first),
                    condition->0,
                    row_bits(bits@, old(runtime).active_shots as int),
                ) == Err::<Block<A>, Seq<char>>(e@),
        },
{
    match condition {
        Some(c) => assign_symbol(runtime, c, bits),
        None => Ok(()),
    }
}

/// Writes the record of a measurement and the symbol that follows it.
pub fn write_batch_measurement_record<A: Copy>(
    runtime: &mut BatchFactoredExecutorState<A>,
    record: Option<i32>,
    outcome_bits: &[u64],
    record_condition: Option<i32>,
) -> (r: Result<()>)
    requires
        old(runtime).ready(),
        outcome_bits@.len() >= old(runtime).live_words(),
        record is Some ==> record->0 * old(runtime).batch_words <= usize::MAX,
    ensures
        final(runtime).same_frame(old(runtime)),
        final(runtime).active_shots == old(runtime).active_shots,
        match r {
            Ok(_) => final(runtime).ready() && forall|first: int|
                write_measurement(
                    #[trigger] old(runtime).block(first),
                    record,
                    row_bits(outcome_bits@, old(runtime).active_shots as int),
                    record_condition,
                ) == Ok::<Block<A>, Seq<char>>(final(runtime).block(first)),
            Err(e) => forall|first: int|
                write_measurement(
                    #[trigger] old(runtime).block(first),
                    record,
                    row_bits(outcome_bits@, old(runtime).active_shots as int),
                    record_condition,
                ) == Err::<Block<A>, Seq<char>>(e@),
        },
{
    match write_record(runtime, record, outcome_bits) {
        Err(e) => {
            return Err(e);
        },
        Ok(_) => {},
    }
    let ghost mid = *runtime;
    proof {
        if record is Some {
            lemma_block_record(old(runtime), &mid, record->0, outcome_bits@, 0);
            assert forall|first: int|
                with_records(
                    #[trigger] old(runtime).block(first),
                    record->0 as int,
                    row_bits(outcome_bits@, old(runtime).active_shots as int),
                ) == mid.block(first) by {
                lemma_block_record(old(runtime), &mid, record->0, outcome_bits@, first);
            }
        }
    }
    let r: Result<()> = assign_batch_symbol_opt(runtime, record_condition, outcome_bits);
    proof {
        if record_condition is Some {
            let c = record_condition->0;
            assert forall|first: int| #[trigger] old(runtime).block(first) == old(runtime).block(
                first,
            ) implies match r {
                Ok(_) => assign(
                    mid.block(first),
                    c,
                    row_bits(outcome_bits@, mid.active_shots as int),
                ) == Ok::<Block<A>, Seq<char>>(runtime.block(first)),
                Err(e) => assign(
                    mid.block(first),
                    c,
                    row_bits(outcome_bits@, mid.active_shots as int),
                ) == Err::<Block<A>, Seq<char>>(e@),
            } by {}
        }
    }
    r
}

/// Draws a fair coin for every live shot: one draw for every word, never for every
/// shot.
pub fn fill_batch_random_half_bits<A: Copy, K: ActiveKernels<A>>(
    k: &K,
    runtime: &mut BatchFactoredExecutorState<A>,
) -> (r: Vec<u64>)
    requires
        lawful::<A, K>(k),
        old(runtime).ready(),
    ensures
        final(runtime).ready(),
        final(runtime).same_frame(old(runtime)),
        final(runtime).active_shots == old(runtime).active_shots,
        r@.len() == old(runtime).batch_words,
        forall|first: int|
            #![trigger old(runtime).block(first)]
            {
                let (next, drawn) = coins(k, old(runtime).block(first));
                &&& final(runtime).block(first) == (Block { rng: next, ..old(runtime).block(first) })
                &&& row_bits(r@, old(runtime).active_shots as int) == drawn
            },
{
    let nwords: usize = runtime.live_word_count();
    let words: usize = runtime.batch_words;
    let mut bits: Vec<u64> = filled_list(words, 0u64);
    let mut state: u64 = runtime.rng_state;
    let ghost start = runtime.rng_state;
    let mut word: usize = 0;
    assert(bits@.take(0) =~= Seq::<u64>::empty());
    while word < nwords
        invariant
            word <= nwords,
            nwords <= words,
            bits@.len() == words,
            lawful::<A, K>(k),
            coin_words::<A, K>(k, start, word as int) == (state, bits@.take(word as int)),
        decreases nwords - word,
    {
        let (next, drawn) = k.random(state);
        let ghost before = bits@;
        bits.set(word, drawn);
        state = next;
        assert(bits@.take(word as int + 1) =~= before.take(word as int).push(drawn));
        word += 1;
    }
    runtime.rng_state = state;
    proof {
        lemma_block_rng(old(runtime), runtime, 0);
        assert forall|first: int| #![trigger old(runtime).block(first)]
            {
                let (next, drawn) = coins(k, old(runtime).block(first));
                &&& runtime.block(first) == (Block { rng: next, ..old(runtime).block(first) })
                &&& row_bits(bits@, old(runtime).active_shots as int) == drawn
            } by {
            lemma_block_rng(old(runtime), runtime, first);
            let (next, drawn) = coins(k, old(runtime).block(first));
            let row = row_bits(bits@, old(runtime).active_shots as int);
            assert forall|s: int| 0 <= s < old(runtime).active_shots implies row[s] == drawn[s] by {
                assert(s / 64 < nwords);
                assert(bits@.take(word as int)[s / 64] == bits@[s / 64]);
            }
            assert(row =~= drawn);
        }
    }
    bits
}

/// The outcome of a detector that reads records, or of a constant one.
fn detector_record_outcome_bits<A: Copy>(
    runtime: &BatchFactoredExecutorState<A>,
    instruction: &RecordDetector,
    out: &mut Vec<u64>,
) -> (r: Result<()>)
    requires
        runtime.ready(),
        instruction.outcome_plan.wf(),
        instruction.outcome_plan.conditions@ == instruction.outcome.conditions@,
        instruction.records@.len() > 0 || instruction.outcome.conditions@.len() == 0,
    ensures
        match r {
            Ok(_) => {
                &&& final(out)@.len() >= runtime.batch_words
                &&& instruction.records@.len() > 0 ==> records_exist(
                    instruction.records@,
                    runtime.nrecords as int,
                )
                &&& forall|s: int, first: int|
                    0 <= s < runtime.active_shots ==> row_bit(final(out)@, s) == if instruction.records@.len()
                        > 0 {
                        records_parity(
                            instruction.records@,
                            #[trigger] runtime.block(first).shots[s],
                            instruction.records@.len() as int,
                        )
                    } else {
                        instruction.outcome_plan.constant
                    }
            },
            Err(e) => {
                &&& instruction.records@.len() > 0
                &&& !records_exist(instruction.records@, runtime.nrecords as int)
                &&& e@ == "detector references an out-of-range measurement record"@
            },
        },
{
    if instruction.records.len() == 0 {
        proof {
            crate::symbols::lemma_plan_refusal(
                runtime.nsymbols as int,
                runtime.known(),
                instruction.outcome_plan,
            );
        }
        return match eval_symbolic_bool_batch(out, &instruction.outcome_plan, runtime) {
            Ok(_) => {
                Ok(())
            },
            Err(e) => {
                assert(false);
                Err(e)
            },
        };
    }
    let words: usize = runtime.batch_words;
    let mut row: Vec<u64> = filled_list(words, 0u64);
    let ghost nrecords = runtime.nrecords as int;
    let ghost list = instruction.records@;
    proof {
        assert forall|s: int| 0 <= s < runtime.active_shots implies !#[trigger] row_bit(row@, s) by {
            crate::executor::lemma_clear_row(row@, s);
        }
    }
    let mut at: usize = 0;
    while at < instruction.records.len()
        invariant
            at <= instruction.records@.len(),
            list == instruction.records@,
            runtime.ready(),
            nrecords == runtime.nrecords,
            row@.len() == runtime.batch_words,
            forall|q: int| 0 <= q < at ==> 0 < #[trigger] list[q] <= nrecords,
            forall|s: int, first: int|
                0 <= s < runtime.active_shots ==> row_bit(row@, s) == records_parity(
                    list,
                    #[trigger] runtime.block(first).shots[s],
                    at as int,
                ),
        decreases instruction.records@.len() - at,
    {
        let record: i32 = instruction.records[at];
        if record <= 0 || record as usize > runtime.nrecords {
            assert(!records_exist(list, nrecords)) by {
                assert(!(0 < list[at as int] <= nrecords));
            }
            return Err(TicitError::new("detector references an out-of-range measurement record"));
        }
        let ghost before = row@;
        let plane: usize = (record - 1) as usize;
        xor_plane(&mut row, &runtime.measurement_words, runtime, plane, Ghost(nrecords));
        proof {
            assert forall|s: int, first: int|
                0 <= s < runtime.active_shots implies row_bit(row@, s) == records_parity(
                list,
                #[trigger] runtime.block(first).shots[s],
                at as int + 1,
            ) by {
                let shot = runtime.block(first).shots[s];
                assert(row_bit(before, s) == records_parity(list, shot, at as int));
                assert(shot.records[record - 1] == runtime.record_bit(record as int, s));
            }
        }
        at += 1;
    }
    *out = row;
    Ok(())
}

/// The outcome of a detector: records and constants come from the executor,
/// everything else from the source.
pub fn detector_outcome_bits<'a, A: Copy>(
    runtime: &BatchFactoredExecutorState<A>,
    instruction: &RecordDetector,
    source: &BatchSignSource<'a>,
    instruction_index: usize,
    out: &mut Vec<u64>,
) -> (r: Result<()>)
    requires
        runtime.ready(),
        source.serves(runtime),
        instruction.outcome_plan.wf(),
        instruction.outcome_plan.conditions@ == instruction.outcome.conditions@,
    ensures
        match r {
            Ok(_) => {
                &&& final(out)@.len() >= runtime.batch_words
                &&& detector_refusal(
                    source.plan_of(),
                    *instruction,
                    instruction_index as int,
                    runtime.block(source.first()),
                ) is None
                &&& row_bits(final(out)@, runtime.active_shots as int) == detector_outcomes(
                    source.base(),
                    source.plan_of(),
                    *instruction,
                    instruction_index as int,
                    runtime.block(source.first()),
                )
            },
            Err(e) => detector_refusal(
                source.plan_of(),
                *instruction,
                instruction_index as int,
                runtime.block(source.first()),
            ) == Some(e@),
        },
{
    let ghost all = detector_outcomes(
        source.base(),
        source.plan_of(),
        *instruction,
        instruction_index as int,
        runtime.block(source.first()),
    );
    if instruction.records.len() > 0 || instruction.outcome.conditions.len() == 0 {
        let r: Result<()> = detector_record_outcome_bits(runtime, instruction, out);
        proof {
            if r is Ok {
                let b = runtime.block(source.first());
                assert forall|s: int| 0 <= s < runtime.active_shots implies row_bit(out@, s)
                    == all[s] by {
                    let shot = b.shots[s];
                    assert(shot == runtime.block(source.first()).shots[s]);
                }
                assert(row_bits(out@, runtime.active_shots as int) =~= all);
            }
        }
        return r;
    }
    let r: Result<()> = source.eval(instruction_index, runtime, out);
    proof {
        if r is Ok {
            let b = runtime.block(source.first());
            assert(signs(source.base(), source.plan_of(), instruction_index as int, b) =~= all);
        }
    }
    r
}

/// Writes plus or minus one for every live shot.
fn write_batch_expectation<A: Copy>(
    runtime: &mut BatchFactoredExecutorState<A>,
    exp_val: i32,
    outcome_bits: &[u64],
) -> (r: Result<()>)
    requires
        old(runtime).ready(),
    ensures
        final(runtime).same_frame(old(runtime)),
        final(runtime).active_shots == old(runtime).active_shots,
        match r {
            Ok(_) => final(runtime).ready() && forall|first: int|
                write_exp(
                    #[trigger] old(runtime).block(first),
                    exp_val,
                    Seq::new(
                        old(runtime).active_shots as nat,
                        |s: int| unit_bits(row_bit(outcome_bits@, s)),
                    ),
                ) == Ok::<Block<A>, Seq<char>>(final(runtime).block(first)),
            Err(e) => forall|first: int|
                write_exp(
                    #[trigger] old(runtime).block(first),
                    exp_val,
                    Seq::new(
                        old(runtime).active_shots as nat,
                        |s: int| unit_bits(row_bit(outcome_bits@, s)),
                    ),
                ) == Err::<Block<A>, Seq<char>>(e@),
        },
{
    let shots: usize = runtime.active_shots;
    let mut values: Vec<u64> = Vec::new();
    let mut shot: usize = 0;
    while shot < shots
        invariant
            shot <= shots,
            values@.len() == shot,
            forall|s: int| 0 <= s < shot ==> #[trigger] values@[s] == unit_bits(row_bit(outcome_bits@, s)),
        decreases shots - shot,
    {
        if batch_bit_at(outcome_bits, shot) {
            values.push(MINUS_ONE_BITS);
        } else {
            values.push(ONE_BITS);
        }
        shot += 1;
    }
    assert(values@ =~= Seq::new(shots as nat, |s: int| unit_bits(row_bit(outcome_bits@, s))));
    write_batch_expectation_values(runtime, exp_val, &values)
}

/// Writes zero for every live shot.
fn write_zero_batch_expectation<A: Copy>(
    runtime: &mut BatchFactoredExecutorState<A>,
    exp_val: i32,
) -> (r: Result<()>)
    requires
        old(runtime).ready(),
    ensures
        final(runtime).same_frame(old(runtime)),
        final(runtime).active_shots == old(runtime).active_shots,
        match r {
            Ok(_) => final(runtime).ready() && forall|first: int|
                write_exp(
                    #[trigger] old(runtime).block(first),
                    exp_val,
                    Seq::new(old(runtime).active_shots as nat, |s: int| 0u64),
                ) == Ok::<Block<A>, Seq<char>>(final(runtime).block(first)),
            Err(e) => forall|first: int|
                write_exp(
                    #[trigger] old(runtime).block(first),
                    exp_val,
                    Seq::new(old(runtime).active_shots as nat, |s: int| 0u64),
                ) == Err::<Block<A>, Seq<char>>(e@),
        },
{
    let shots: usize = runtime.active_shots;
    let values: Vec<u64> = filled_list(shots, 0u64);
    assert(values@ =~= Seq::new(shots as nat, |s: int| 0u64));
    write_batch_expectation_values(runtime, exp_val, &values)
}

/// The records that a drawn branch writes. An outcome that is the branch itself,
/// possibly negated, takes the drawn bits; any other is evaluated.
fn write_branch_record<'a, A: Copy>(
    runtime: &mut BatchFactoredExecutorState<A>,
    source: &BatchSignSource<'a>,
    instruction_index: usize,
    branch_bits: &mut Vec<u64>,
    branch: i32,
    outcome_plan: &SymbolicBoolEvaluationPlan,
    record: Option<i32>,
    record_condition: Option<i32>,
) -> (r: Result<()>)
    requires
        old(runtime).ready(),
        source.serves(old(runtime)),
        old(branch_bits)@.len() >= old(runtime).batch_words,
        record is Some ==> record->0 * old(runtime).batch_words <= usize::MAX,
    ensures
        final(runtime).same_frame(old(runtime)),
        final(runtime).active_shots == old(runtime).active_shots,
        match r {
            Ok(_) => final(runtime).ready() && write_branch(
                source.base(),
                source.plan_of(),
                instruction_index as int,
                old(runtime).block(source.first()),
                row_bits(old(branch_bits)@, old(runtime).active_shots as int),
                branch,
                *outcome_plan,
                record,
                record_condition,
            ) == Ok::<Block<A>, Seq<char>>(final(runtime).block(source.first())),
            Err(e) => write_branch(
                source.base(),
                source.plan_of(),
                instruction_index as int,
                old(runtime).block(source.first()),
                row_bits(old(branch_bits)@, old(runtime).active_shots as int),
                branch,
                *outcome_plan,
                record,
                record_condition,
            ) == Err::<Block<A>, Seq<char>>(e@),
        },
{
    let ghost first = source.first();
    let ghost b = old(runtime).block(first);
    let ghost drawn = row_bits(old(branch_bits)@, old(runtime).active_shots as int);
    if outcome_plan.conditions.len() == 1 && outcome_plan.conditions[0] == branch {
        if outcome_plan.constant {
            invert_batch_bits(branch_bits, runtime);
        }
        proof {
            let row = row_bits(branch_bits@, old(runtime).active_shots as int);
            assert(row =~= Seq::new(b.shots.len(), |s: int| drawn[s] != outcome_plan.constant));
        }
        return write_batch_measurement_record(
            runtime,
            record,
            branch_bits.as_slice(),
            record_condition,
        );
    }
    match source.eval(instruction_index, runtime, branch_bits) {
        Err(e) => {
            return Err(e);
        },
        Ok(_) => {},
    }
    write_batch_measurement_record(runtime, record, branch_bits.as_slice(), record_condition)
}

// ---------------------------------------------------------------------------
// Instructions
// ---------------------------------------------------------------------------
/// The planes of the ids that an instruction names can be addressed.
pub open spec fn ids_fit(ins: FactoredInstruction, words: int) -> bool {
    &&& match ins {
        FactoredInstruction::RecordMeasurement(inst) => inst.record is Some ==> inst.record->0 * words
            <= usize::MAX,
        FactoredInstruction::MeasurePrecomputedActivePauli(inst) => inst.record is Some
            ==> inst.record->0 * words <= usize::MAX,
        FactoredInstruction::IntroduceDormantMeasurementBranch(inst) => inst.record is Some
            ==> inst.record->0 * words <= usize::MAX,
        FactoredInstruction::RecordDetector(inst) => inst.detector * words <= usize::MAX,
        _ => true,
    }
}

/// Whether an instruction works on the amplitudes.
pub open spec fn touches_amplitudes(ins: FactoredInstruction) -> bool {
    match ins {
        FactoredInstruction::ApplyPrecomputedActivePauliRotation(_) => true,
        FactoredInstruction::PromoteDormantRotation(_) => true,
        FactoredInstruction::MeasurePrecomputedActivePauli(_) => true,
        _ => false,
    }
}

/// Executes one instruction on the whole active state.
#[verifier::rlimit(60)]
pub fn execute_batch_instruction<'a, A: Copy, K: ActiveKernels<A>>(
    k: &K,
    runtime: &mut BatchFactoredExecutorState<A>,
    instruction: &FactoredInstruction,
    source: &BatchSignSource<'a>,
    instruction_index: usize,
    work: &mut Vec<u64>,
) -> (r: Result<()>)
    requires
        lawful::<A, K>(k),
        old(runtime).ready(),
        source.serves(old(runtime)),
        instruction.wf(),
        ids_fit(*instruction, old(runtime).batch_words as int),
        old(runtime).active_components_enabled ==> !touches_amplitudes(*instruction),
    ensures
        final(runtime).same_frame(old(runtime)),
        final(runtime).active_shots == old(runtime).active_shots,
        match r {
            Ok(_) => final(runtime).ready() && step_whole(
                k,
                source.base(),
                source.plan_of(),
                *instruction,
                instruction_index as int,
                old(runtime).block(source.first()),
            ) == Ok::<Block<A>, Seq<char>>(final(runtime).block(source.first())),
            Err(e) => step_whole(
                k,
                source.base(),
                source.plan_of(),
                *instruction,
                instruction_index as int,
                old(runtime).block(source.first()),
            ) == Err::<Block<A>, Seq<char>>(e@),
        },
{
    let ghost first = source.first();
    let ghost b = old(runtime).block(first);
    match instruction {
        FactoredInstruction::ApplyPrecomputedActivePauliRotation(inst) => {
            match source.eval(instruction_index, runtime, work) {
                Err(e) => {
                    return Err(e);
                },
                Ok(_) => {},
            }
            rotate_pauli_batch(k, runtime, 0, inst.rotation_kernel, work.as_slice())
        },
        FactoredInstruction::PromoteDormantRotation(inst) => {
            match source.eval(instruction_index, runtime, work) {
                Err(e) => {
                    return Err(e);
                },
                Ok(_) => {},
            }
            promote_first_dormant_rotation_batch(k, runtime, inst.kernel_angle, work.as_slice())
        },
        FactoredInstruction::RecordMeasurement(inst) => {
            match source.eval(instruction_index, runtime, work) {
                Err(e) => {
                    return Err(e);
                },
                Ok(_) => {},
            }
            match inst.exp_val {
                Some(exp_val) => {
                    proof {
                        let all = signs(source.base(), source.plan_of(), instruction_index as int, b);
                        let row = row_bits(work@, old(runtime).active_shots as int);
                        assert(row == all);
                        assert(Seq::new(b.shots.len(), |s: int| unit_bits(all[s])) =~= Seq::new(
                            old(runtime).active_shots as nat,
                            |s: int| unit_bits(row_bit(work@, s)),
                        )) by {
                            assert forall|s: int| 0 <= s < b.shots.len() implies all[s] == row_bit(
                                work@,
                                s,
                            ) by {
                                assert(row[s] == all[s]);
                            }
                        }
                    }
                    write_batch_expectation(runtime, exp_val, work.as_slice())
                },
                None => write_batch_measurement_record(
                    runtime,
                    inst.record,
                    work.as_slice(),
                    inst.record_condition,
                ),
            }
        },
        FactoredInstruction::RecordDetector(inst) => {
            match detector_outcome_bits(runtime, inst, source, instruction_index, work) {
                Err(e) => {
                    return Err(e);
                },
                Ok(_) => {},
            }
            let r: Result<()> = write_batch_detector_record(runtime, inst.detector, work.as_slice());
            proof {
                if r is Ok {
                    lemma_block_detector(old(runtime), runtime, inst.detector, work@, first);
                }
            }
            r
        },
        FactoredInstruction::MeasurePrecomputedActivePauli(inst) => {
            match inst.exp_val {
                Some(exp_val) => {
                    match source.eval(instruction_index, runtime, work) {
                        Err(e) => {
                            return Err(e);
                        },
                        Ok(_) => {},
                    }
                    measure_precomputed_active_pauli_expectation_batch(
                        k,
                        runtime,
                        inst.kernel,
                        work.as_slice(),
                        exp_val,
                    )
                },
                None => {
                    let mut bits: Vec<u64> = match measure_part_batch(k, runtime, 0, inst.kernel) {
                        Err(e) => {
                            return Err(e);
                        },
                        Ok(bits) => bits,
                    };
                    let ghost mid = *runtime;
                    match assign_symbol(runtime, inst.branch, bits.as_slice()) {
                        Err(e) => {
                            return Err(e);
                        },
                        Ok(_) => {},
                    }
                    proof {
                        assert(mid.block(first) == mid.block(first));
                    }
                    write_branch_record(
                        runtime,
                        source,
                        instruction_index,
                        &mut bits,
                        inst.branch,
                        &inst.outcome_plan,
                        inst.record,
                        inst.record_condition,
                    )
                },
            }
        },
        FactoredInstruction::IntroduceDormantMeasurementBranch(inst) => {
            match inst.exp_val {
                Some(exp_val) => {
                    assert(Seq::new(b.shots.len(), |s: int| 0u64) =~= Seq::new(
                        old(runtime).active_shots as nat,
                        |s: int| 0u64,
                    ));
                    write_zero_batch_expectation(runtime, exp_val)
                },
                None => {
                    let mut bits: Vec<u64> = fill_batch_random_half_bits(k, runtime);
                    let ghost mid = *runtime;
                    match assign_symbol(runtime, inst.branch, bits.as_slice()) {
                        Err(e) => {
                            assert(mid.block(first) == mid.block(first));
                            return Err(e);
                        },
                        Ok(_) => {},
                    }
                    proof {
                        assert(mid.block(first) == mid.block(first));
                    }
                    write_branch_record(
                        runtime,
                        source,
                        instruction_index,
                        &mut bits,
                        inst.branch,
                        &inst.outcome_plan,
                        inst.record,
                        inst.record_condition,
                    )
                },
            }
        },
    }
}

// ---------------------------------------------------------------------------
// Component instructions
// ---------------------------------------------------------------------------
/// Every step of the plan refers to a list entry of its kind, and instructions
/// without a step leave the amplitudes alone.
pub open spec fn component_plan_wf(parts: ActiveComponentPlan, instructions: Seq<FactoredInstruction>) -> bool {
    &&& parts.instruction_steps@.len() == instructions.len()
    &&& forall|i: int|
        0 <= i < instructions.len() ==> {
            let step = #[trigger] parts.instruction_steps@[i];
            match step.kind {
                ActiveComponentStepKind::Rotation => step.payload < parts.rotations@.len(),
                ActiveComponentStepKind::Promotion => step.payload < parts.promotions@.len(),
                ActiveComponentStepKind::Measurement => step.payload < parts.measurements@.len(),
                ActiveComponentStepKind::Unaffected => !touches_amplitudes(instructions[i]),
                ActiveComponentStepKind::IgnoredGlobalPhase => true,
            }
        }
    &&& forall|q: int|
        0 <= q < parts.rotations@.len() ==> (#[trigger] parts.rotations@[q]).merge_offset
            + parts.rotations@[q].merge_count <= usize::MAX
    &&& forall|q: int|
        0 <= q < parts.measurements@.len() ==> (#[trigger] parts.measurements@[q]).merge_offset
            + parts.measurements@[q].merge_count <= usize::MAX
}

/// Executes one instruction on the split active state.
#[verifier::rlimit(80)]
#[verifier::spinoff_prover]
pub fn execute_batch_component_instruction<'a, A: Copy, K: ActiveKernels<A>>(
    k: &K,
    runtime: &mut BatchFactoredExecutorState<A>,
    plan: &ActiveComponentPlan,
    instructions: &Vec<FactoredInstruction>,
    source: &BatchSignSource<'a>,
    instruction_index: usize,
    work: &mut Vec<u64>,
) -> (r: Result<()>)
    requires
        lawful::<A, K>(k),
        old(runtime).ready(),
        old(runtime).active_components_enabled,
        source.serves(old(runtime)),
        instruction_index < instructions@.len(),
        instructions@[instruction_index as int].wf(),
        ids_fit(instructions@[instruction_index as int], old(runtime).batch_words as int),
        component_plan_wf(*plan, instructions@),
    ensures
        final(runtime).same_frame(old(runtime)),
        final(runtime).active_shots == old(runtime).active_shots,
        match r {
            Ok(_) => final(runtime).ready() && step_split(
                k,
                source.base(),
                source.plan_of(),
                *plan,
                instructions@[instruction_index as int],
                instruction_index as int,
                old(runtime).block(source.first()),
            ) == Ok::<Block<A>, Seq<char>>(final(runtime).block(source.first())),
            Err(e) => step_split(
                k,
                source.base(),
                source.plan_of(),
                *plan,
                instructions@[instruction_index as int],
                instruction_index as int,
                old(runtime).block(source.first()),
            ) == Err::<Block<A>, Seq<char>>(e@),
        },
{
    let ghost first = source.first();
    let ghost b = old(runtime).block(first);
    let step = plan.instruction_steps[instruction_index];
    match step.kind {
        ActiveComponentStepKind::IgnoredGlobalPhase => Ok(()),
        ActiveComponentStepKind::Rotation => {
            match &instructions[instruction_index] {
                FactoredInstruction::ApplyPrecomputedActivePauliRotation(_) => {},
                _ => {
                    return Err(
                        TicitError::new("component rotation step does not match its instruction"),
                    );
                },
            }
            match source.eval(instruction_index, runtime, work) {
                Err(e) => {
                    return Err(e);
                },
                Ok(_) => {},
            }
            let rotation = plan.rotations[step.payload];
            assert(plan.rotations@[step.payload as int].merge_offset
                + plan.rotations@[step.payload as int].merge_count <= usize::MAX);
            match merge_batch_components(
                k,
                runtime,
                &plan.merge_components,
                rotation.merge_offset,
                rotation.merge_count,
                rotation.component,
            ) {
                Err(e) => {
                    return Err(e);
                },
                Ok(_) => {},
            }
            let ghost mid = *runtime;
            let r: Result<()> = rotate_pauli_batch(
                k,
                runtime,
                rotation.component,
                rotation.kernel,
                work.as_slice(),
            );
            proof {
                assert(mid.block(first) == mid.block(first));
            }
            r
        },
        ActiveComponentStepKind::Promotion => {
            let kernel_angle: u64 = match &instructions[instruction_index] {
                FactoredInstruction::PromoteDormantRotation(inst) => inst.kernel_angle,
                _ => {
                    return Err(
                        TicitError::new("component promotion step does not match its instruction"),
                    );
                },
            };
            match source.eval(instruction_index, runtime, work) {
                Err(e) => {
                    return Err(e);
                },
                Ok(_) => {},
            }
            execute_batch_component_promotion(
                k,
                runtime,
                plan.promotions[step.payload].component,
                kernel_angle,
                work.as_slice(),
            )
        },
        ActiveComponentStepKind::Measurement => {
            match &instructions[instruction_index] {
                FactoredInstruction::MeasurePrecomputedActivePauli(inst) => {
                    let measurement = plan.measurements[step.payload];
                    assert(plan.measurements@[step.payload as int].merge_offset
                        + plan.measurements@[step.payload as int].merge_count <= usize::MAX);
                    match merge_batch_components(
                        k,
                        runtime,
                        &plan.merge_components,
                        measurement.merge_offset,
                        measurement.merge_count,
                        measurement.component,
                    ) {
                        Err(e) => {
                            return Err(e);
                        },
                        Ok(_) => {},
                    }
                    let ghost merged = *runtime;
                    let ghost at = measurement.component as int;
                    let mut bits: Vec<u64> = match measure_part_batch(
                        k,
                        runtime,
                        measurement.component,
                        measurement.kernel,
                    ) {
                        Err(e) => {
                            assert(merged.block(first) == merged.block(first));
                            return Err(e);
                        },
                        Ok(bits) => bits,
                    };
                    let ghost mid = *runtime;
                    proof {
                        assert(merged.block(first) == merged.block(first));
                    }
                    match assign_symbol(runtime, inst.branch, bits.as_slice()) {
                        Err(e) => {
                            assert(mid.block(first) == mid.block(first));
                            return Err(e);
                        },
                        Ok(_) => {},
                    }
                    let ghost assigned = *runtime;
                    proof {
                        assert(mid.block(first) == mid.block(first));
                        lemma_parts_kept(
                            mid.block(first),
                            inst.branch,
                            row_bits(bits@, mid.active_shots as int),
                        );
                        assert(runtime.block(first).parts == mid.block(first).parts);
                        assert(runtime.block(first).parts.len() == runtime.part_count());
                        assert(mid.block(first).parts.len() == mid.part_count());
                        assert(at < mid.part_count());
                        assert(runtime.block(first).parts[at] == runtime.part(at));
                    }
                    if measurement.deactivate_after {
                        if runtime.active_components[measurement.component].k != 0 {
                            return Err(
                                TicitError::new(
                                    "active component measurement did not remove its last coordinate",
                                ),
                            );
                        }
                        deactivate_component(runtime, measurement.component);
                        proof {
                            assert(assigned.block(first) == assigned.block(first));
                        }
                    }
                    write_branch_record(
                        runtime,
                        source,
                        instruction_index,
                        &mut bits,
                        inst.branch,
                        &inst.outcome_plan,
                        inst.record,
                        inst.record_condition,
                    )
                },
                _ => Err(TicitError::new("component measurement step does not match its instruction")),
            }
        },
        ActiveComponentStepKind::Unaffected => execute_batch_instruction(
            k,
            runtime,
            &instructions[instruction_index],
            source,
            instruction_index,
            work,
        ),
    }
}

/// Assigning a symbol leaves the parts alone.
proof fn lemma_parts_kept<A>(b: Block<A>, c: i32, bits: Seq<bool>)
    ensures
        match assign(b, c, bits) {
            Ok(after) => after.parts == b.parts,
            Err(_) => true,
        },
{
}

} // verus!
