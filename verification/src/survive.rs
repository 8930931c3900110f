//! Reducing an executor to the surviving shots. Only columns that a later
//! instruction reads are moved.
use vstd::prelude::*;
use crate::bits::words_for_bits;
use crate::compaction::{
    collect_live_sources, compact_dense_columns, compact_plane, count_live_bits, entry,
    lemma_survivors, survivors,
};
use crate::errors::{Result, TicitError};
use crate::executor::{
    active_length, component_wf, filled_list, records_end, BatchFactoredExecutorState,
};
use crate::lanes::{compact_lanes, LaneLayout};
use crate::planes::plane_bit;
use crate::presampled_expression::{bulk_plan, PresampledExpressionPlan};
use crate::program::{FactoredInstruction, FactoredInstructionProgram};
use crate::symbolic::SymbolicBoolEvaluationPlan;
use crate::symbols::batch_symbol_assigned;

verus! {

broadcast use crate::bits::group_word_bits;

// ---------------------------------------------------------------------------
// Last uses
// ---------------------------------------------------------------------------
/// The instruction reads the condition.
pub open spec fn uses(ins: FactoredInstruction, c: i32) -> bool {
    match bulk_plan(ins) {
        Some(plan) => plan.conditions@.contains(c),
        None => false,
    }
}

/// Some instruction from `i` up to `end` reads the condition.
pub open spec fn used_between(program: &FactoredInstructionProgram, c: i32, i: int, end: int) -> bool {
    exists|m: int| i <= m < end && uses(#[trigger] program.instructions@[m], c)
}

/// Some instruction from `i` on reads the condition.
pub open spec fn used_from(program: &FactoredInstructionProgram, c: i32, i: int) -> bool {
    used_between(program, c, i, program.instructions@.len() as int)
}

/// The detector reads the record.
pub open spec fn reads(ins: FactoredInstruction, record: i32) -> bool {
    match ins {
        FactoredInstruction::RecordDetector(inst) => inst.records@.contains(record),
        _ => false,
    }
}

/// Some detector from `i` up to `end` reads the record.
pub open spec fn read_between(
    program: &FactoredInstructionProgram,
    record: i32,
    i: int,
    end: int,
) -> bool {
    exists|m: int| i <= m < end && reads(#[trigger] program.instructions@[m], record)
}

/// The record is one of those that stay to the end.
pub open spec fn retained_by(groups: Seq<Vec<i32>>, record: i32) -> bool {
    exists|g: int| 0 <= g < groups.len() && (#[trigger] groups[g])@.contains(record)
}

/// Some detector from `i` on reads the record, or it is retained.
pub open spec fn record_used_from(
    program: &FactoredInstructionProgram,
    retained: Seq<Vec<i32>>,
    record: i32,
    i: int,
) -> bool {
    ||| read_between(program, record, i, program.instructions@.len() as int)
    ||| retained_by(retained, record)
}

/// Some instruction from `i` on refers to the block expression.
pub open spec fn expression_used_from(plan: PresampledExpressionPlan, e: int, i: int) -> bool {
    exists|m: int|
        i <= m < plan.instruction_expressions@.len() && (
        #[trigger] plan.instruction_expressions@[m]).block_expression_index == e
}

/// Notes an instruction as the last use so far of every condition that it reads.
fn mark_condition_uses(last_use: &mut Vec<i32>, plan: &SymbolicBoolEvaluationPlan, index: i32)
    requires
        forall|c: int| 0 <= c < old(last_use)@.len() ==> #[trigger] old(last_use)@[c] <= index,
    ensures
        final(last_use)@.len() == old(last_use)@.len(),
        forall|c: int|
            0 < c < old(last_use)@.len() ==> #[trigger] final(last_use)@[c] == if c <= i32::MAX
                && plan.conditions@.contains(c as i32) {
                index
            } else {
                old(last_use)@[c]
            },
        final(last_use)@.len() > 0 ==> final(last_use)@[0] == old(last_use)@[0],
{
    let ghost start = last_use@;
    let mut k: usize = 0;
    while k < plan.conditions.len()
        invariant
            k <= plan.conditions@.len(),
            last_use@.len() == start.len(),
            forall|c: int| 0 <= c < start.len() ==> #[trigger] start[c] <= index,
            last_use@.len() > 0 ==> last_use@[0] == start[0],
            forall|c: int|
                0 < c < start.len() ==> #[trigger] last_use@[c] == if c <= i32::MAX
                    && plan.conditions@.take(k as int).contains(c as i32) {
                    index
                } else {
                    start[c]
                },
        decreases plan.conditions@.len() - k,
    {
        let condition: i32 = plan.conditions[k];
        let ghost before = last_use@;
        if condition > 0 && (condition as usize) < last_use.len() {
            last_use.set(condition as usize, index);
        }
        proof {
            let taken = plan.conditions@.take(k + 1);
            let prior = plan.conditions@.take(k as int);
            assert(taken =~= prior.push(condition));
            assert forall|c: int| 0 < c < start.len() implies #[trigger] last_use@[c] == if c <= i32::MAX
                && taken.contains(c as i32) {
                index
            } else {
                start[c]
            } by {
                assert(before[c] == if c <= i32::MAX && prior.contains(c as i32) {
                    index
                } else {
                    start[c]
                });
                assert(taken[k as int] == condition);
                if c <= i32::MAX {
                    if prior.contains(c as i32) {
                        let q = choose|q: int| 0 <= q < prior.len() && prior[q] == c as i32;
                        assert(taken[q] == c as i32);
                    }
                    if taken.contains(c as i32) && c != condition {
                        let q = choose|q: int| 0 <= q < taken.len() && taken[q] == c as i32;
                        assert(prior[q] == c as i32);
                    }
                }
            }
        }
        k += 1;
    }
    assert(plan.conditions@.take(k as int) =~= plan.conditions@);
}

/// The last instruction that reads each condition; minus one where none does.
pub fn condition_last_uses(program: &FactoredInstructionProgram) -> (r: Vec<i32>)
    requires
        program.instructions@.len() < i32::MAX,
        program.nsymbols < i32::MAX,
    ensures
        r@.len() == program.nsymbols + 1,
        forall|c: int, i: int|
            0 < c <= program.nsymbols && 0 <= i ==> (r@[c] >= i) == #[trigger] used_from(
                program,
                c as i32,
                i,
            ),
{
    let mut last_use: Vec<i32> = filled_list(program.nsymbols + 1, -1i32);
    let mut idx: usize = 0;
    while idx < program.instructions.len()
        invariant
            idx <= program.instructions@.len(),
            program.instructions@.len() < i32::MAX,
            program.nsymbols < i32::MAX,
            last_use@.len() == program.nsymbols + 1,
            forall|c: int| 0 <= c < last_use@.len() ==> #[trigger] last_use@[c] < idx,
            forall|c: int, i: int|
                0 < c <= program.nsymbols && 0 <= i ==> (last_use@[c] >= i)
                    == #[trigger] used_between(program, c as i32, i, idx as int),
        decreases program.instructions@.len() - idx,
    {
        let ghost before = last_use@;
        let ghost ins = program.instructions@[idx as int];
        let index: i32 = idx as i32;
        match &program.instructions[idx] {
            FactoredInstruction::ApplyPrecomputedActivePauliRotation(inst) => {
                mark_condition_uses(&mut last_use, &inst.sign_plan, index);
            },
            FactoredInstruction::PromoteDormantRotation(inst) => {
                mark_condition_uses(&mut last_use, &inst.sign_plan, index);
            },
            FactoredInstruction::RecordDetector(inst) => {
                if inst.records.len() == 0 && inst.outcome.conditions.len() > 0 {
                    mark_condition_uses(&mut last_use, &inst.outcome_plan, index);
                }
            },
            FactoredInstruction::RecordMeasurement(inst) => {
                mark_condition_uses(&mut last_use, &inst.outcome_plan, index);
            },
            FactoredInstruction::MeasurePrecomputedActivePauli(inst) => {
                mark_condition_uses(&mut last_use, &inst.outcome_plan, index);
            },
            FactoredInstruction::IntroduceDormantMeasurementBranch(inst) => {
                mark_condition_uses(&mut last_use, &inst.outcome_plan, index);
            },
        }
        proof {
            assert forall|c: int| 0 < c < last_use@.len() implies #[trigger] last_use@[c] == if uses(
                ins,
                c as i32,
            ) {
                index
            } else {
                before[c]
            } by {}
            assert forall|c: int| 0 <= c < last_use@.len() implies #[trigger] last_use@[c] < idx + 1 by {
                assert(before[c] < idx);
            }
            assert forall|c: int, i: int| 0 < c <= program.nsymbols && 0 <= i implies (last_use@[c] >= i)
                == #[trigger] used_between(program, c as i32, i, idx + 1) by {
                assert((before[c] >= i) == used_between(program, c as i32, i, idx as int));
                assert(last_use@[c] == if uses(ins, c as i32) {
                    index
                } else {
                    before[c]
                });
                if used_between(program, c as i32, i, idx as int) {
                    let m = choose|m: int|
                        i <= m < idx && uses(#[trigger] program.instructions@[m], c as i32);
                    assert(uses(program.instructions@[m], c as i32));
                }
                if uses(ins, c as i32) && i <= idx {
                    assert(uses(program.instructions@[idx as int], c as i32));
                }
                if used_between(program, c as i32, i, idx + 1) {
                    let m = choose|m: int|
                        i <= m < idx + 1 && uses(#[trigger] program.instructions@[m], c as i32);
                    if m < idx {
                        assert(uses(program.instructions@[m], c as i32));
                    }
                }
                assert(before[c] < idx);
            }
        }
        idx += 1;
    }
    last_use
}

/// Every listed record exists.
pub open spec fn list_in_range(records: Seq<i32>, nrecords: int) -> bool {
    forall|k: int| 0 <= k < records.len() ==> 0 < #[trigger] records[k] <= nrecords
}

/// Every detector of the program reads records that exist.
pub open spec fn detectors_in_range(program: &FactoredInstructionProgram) -> bool {
    forall|m: int|
        0 <= m < program.instructions@.len() ==> detector_in_range(
            #[trigger] program.instructions@[m],
            program.nrecords as int,
        )
}

pub open spec fn detector_in_range(ins: FactoredInstruction, nrecords: int) -> bool {
    match ins {
        FactoredInstruction::RecordDetector(inst) => list_in_range(inst.records@, nrecords),
        _ => true,
    }
}

/// Every retained record exists.
pub open spec fn retained_in_range(retained: Seq<Vec<i32>>, nrecords: int) -> bool {
    forall|g: int| 0 <= g < retained.len() ==> list_in_range((#[trigger] retained[g])@, nrecords)
}

/// Notes `index` for every listed record. False where one does not exist.
fn mark_records(last_use: &mut Vec<i32>, records: &Vec<i32>, index: i32) -> (r: bool)
    requires
        old(last_use)@.len() >= 1,
        forall|c: int| 0 <= c < old(last_use)@.len() ==> #[trigger] old(last_use)@[c] <= index,
    ensures
        final(last_use)@.len() == old(last_use)@.len(),
        r == list_in_range(records@, old(last_use)@.len() - 1),
        r ==> forall|c: int|
            0 < c < old(last_use)@.len() ==> #[trigger] final(last_use)@[c] == if c <= i32::MAX
                && records@.contains(c as i32) {
                index
            } else {
                old(last_use)@[c]
            },
        r ==> final(last_use)@[0] == old(last_use)@[0],
{
    let ghost start = last_use@;
    let mut k: usize = 0;
    while k < records.len()
        invariant
            k <= records@.len(),
            last_use@.len() == start.len(),
            start.len() >= 1,
            start == old(last_use)@,
            forall|c: int| 0 <= c < start.len() ==> #[trigger] start[c] <= index,
            last_use@[0] == start[0],
            forall|q: int| 0 <= q < k ==> 0 < #[trigger] records@[q] <= start.len() - 1,
            forall|c: int|
                0 < c < start.len() ==> #[trigger] last_use@[c] == if c <= i32::MAX
                    && records@.take(k as int).contains(c as i32) {
                    index
                } else {
                    start[c]
                },
        decreases records@.len() - k,
    {
        let record: i32 = records[k];
        if record <= 0 || record as usize > last_use.len() - 1 {
            assert(!(0 < records@[k as int] <= start.len() - 1));
            return false;
        }
        let ghost before = last_use@;
        last_use.set(record as usize, index);
        proof {
            let taken = records@.take(k + 1);
            let prior = records@.take(k as int);
            assert(taken =~= prior.push(record));
            assert forall|c: int| 0 < c < start.len() implies #[trigger] last_use@[c] == if c <= i32::MAX
                && taken.contains(c as i32) {
                index
            } else {
                start[c]
            } by {
                assert(before[c] == if c <= i32::MAX && prior.contains(c as i32) {
                    index
                } else {
                    start[c]
                });
                assert(taken[k as int] == record);
                if c <= i32::MAX {
                    if prior.contains(c as i32) {
                        let q = choose|q: int| 0 <= q < prior.len() && prior[q] == c as i32;
                        assert(taken[q] == c as i32);
                    }
                    if taken.contains(c as i32) && c != record {
                        let q = choose|q: int| 0 <= q < taken.len() && taken[q] == c as i32;
                        assert(prior[q] == c as i32);
                    }
                }
            }
        }
        k += 1;
    }
    assert(records@.take(k as int) =~= records@);
    true
}

/// The last detector that reads each record; retained records are used at the end.
pub fn measurement_record_last_uses(
    program: &FactoredInstructionProgram,
    retained: &[Vec<i32>],
) -> (r: Result<Vec<i32>>)
    requires
        program.instructions@.len() < i32::MAX,
        program.nrecords < i32::MAX,
    ensures
        match r {
            Ok(table) => {
                &&& detectors_in_range(program)
                &&& retained_in_range(retained@, program.nrecords as int)
                &&& table@.len() == program.nrecords + 1
                &&& forall|q: int, i: int|
                    0 < q <= program.nrecords && 0 <= i <= program.instructions@.len() ==> (table@[q]
                        >= i) == #[trigger] record_used_from(program, retained@, q as i32, i)
            },
            Err(e) => {
                ||| !detectors_in_range(program) && e@
                    == "detector references an out-of-range measurement record"@
                ||| detectors_in_range(program) && !retained_in_range(
                    retained@,
                    program.nrecords as int,
                ) && e@ == "retained record use references an out-of-range measurement record"@
            },
        },
{
    let mut last_use: Vec<i32> = filled_list(program.nrecords + 1, -1i32);
    let n: usize = program.instructions.len();
    let mut idx: usize = 0;
    while idx < n
        invariant
            idx <= n,
            n == program.instructions@.len(),
            n < i32::MAX,
            program.nrecords < i32::MAX,
            last_use@.len() == program.nrecords + 1,
            forall|c: int| 0 <= c < last_use@.len() ==> #[trigger] last_use@[c] < idx,
            forall|m: int|
                0 <= m < idx ==> detector_in_range(
                    #[trigger] program.instructions@[m],
                    program.nrecords as int,
                ),
            forall|q: int, i: int|
                0 < q <= program.nrecords && 0 <= i ==> (last_use@[q] >= i)
                    == #[trigger] read_between(program, q as i32, i, idx as int),
        decreases n - idx,
    {
        let ghost before = last_use@;
        let ghost ins = program.instructions@[idx as int];
        match &program.instructions[idx] {
            FactoredInstruction::RecordDetector(detector) => {
                if !mark_records(&mut last_use, &detector.records, idx as i32) {
                    assert(!detector_in_range(ins, program.nrecords as int));
                    return Err(
                        TicitError::new("detector references an out-of-range measurement record"),
                    );
                }
            },
            _ => {},
        }
        proof {
            assert forall|c: int| 0 < c < last_use@.len() implies #[trigger] last_use@[c] == if reads(
                ins,
                c as i32,
            ) {
                idx as i32
            } else {
                before[c]
            } by {}
            assert forall|c: int| 0 <= c < last_use@.len() implies #[trigger] last_use@[c] < idx + 1 by {
                assert(before[c] < idx);
            }
            assert forall|q: int, i: int| 0 < q <= program.nrecords && 0 <= i implies (last_use@[q] >= i)
                == #[trigger] read_between(program, q as i32, i, idx + 1) by {
                assert((before[q] >= i) == read_between(program, q as i32, i, idx as int));
                assert(last_use@[q] == if reads(ins, q as i32) {
                    idx as i32
                } else {
                    before[q]
                });
                if read_between(program, q as i32, i, idx as int) {
                    let m = choose|m: int|
                        i <= m < idx && reads(#[trigger] program.instructions@[m], q as i32);
                    assert(reads(program.instructions@[m], q as i32));
                }
                if reads(ins, q as i32) && i <= idx {
                    assert(reads(program.instructions@[idx as int], q as i32));
                }
                if read_between(program, q as i32, i, idx + 1) {
                    let m = choose|m: int|
                        i <= m < idx + 1 && reads(#[trigger] program.instructions@[m], q as i32);
                    if m < idx {
                        assert(reads(program.instructions@[m], q as i32));
                    }
                }
                assert(before[q] < idx);
            }
        }
        idx += 1;
    }
    let ghost reading = last_use@;
    let mut g: usize = 0;
    while g < retained.len()
        invariant
            g <= retained@.len(),
            n == program.instructions@.len(),
            n < i32::MAX,
            program.nrecords < i32::MAX,
            detectors_in_range(program),
            last_use@.len() == program.nrecords + 1,
            reading.len() == last_use@.len(),
            forall|c: int| 0 <= c < last_use@.len() ==> #[trigger] last_use@[c] <= n,
            forall|c: int| 0 <= c < reading.len() ==> #[trigger] reading[c] < n,
            forall|h: int|
                0 <= h < g ==> list_in_range((#[trigger] retained@[h])@, program.nrecords as int),
            forall|q: int|
                0 < q <= program.nrecords ==> #[trigger] last_use@[q] == if retained_by(
                    retained@.take(g as int),
                    q as i32,
                ) {
                    n as i32
                } else {
                    reading[q]
                },
        decreases retained@.len() - g,
    {
        let ghost before = last_use@;
        if !mark_records(&mut last_use, &retained[g], n as i32) {
            assert(!list_in_range(retained@[g as int]@, program.nrecords as int));
            return Err(
                TicitError::new("retained record use references an out-of-range measurement record"),
            );
        }
        proof {
            let taken = retained@.take(g + 1);
            let prior = retained@.take(g as int);
            assert forall|q: int| 0 < q <= program.nrecords implies #[trigger] last_use@[q]
                == if retained_by(taken, q as i32) {
                n as i32
            } else {
                reading[q]
            } by {
                assert(before[q] == if retained_by(prior, q as i32) {
                    n as i32
                } else {
                    reading[q]
                });
                if retained_by(prior, q as i32) {
                    let h = choose|h: int|
                        0 <= h < prior.len() && (#[trigger] prior[h])@.contains(q as i32);
                    assert(taken[h]@.contains(q as i32));
                }
                assert(taken[g as int] == retained@[g as int]);
                if retained@[g as int]@.contains(q as i32) {
                    assert(retained_by(taken, q as i32));
                } else if retained_by(taken, q as i32) {
                    let h = choose|h: int|
                        0 <= h < taken.len() && (#[trigger] taken[h])@.contains(q as i32);
                    assert(prior[h]@.contains(q as i32));
                }
            }
        }
        g += 1;
    }
    proof {
        assert(retained@.take(g as int) =~= retained@);
        assert forall|q: int, i: int|
            0 < q <= program.nrecords && 0 <= i <= program.instructions@.len() implies (last_use@[q]
            >= i) == #[trigger] record_used_from(program, retained@, q as i32, i) by {
            assert(last_use@[q] == if retained_by(retained@, q as i32) {
                n as i32
            } else {
                reading[q]
            });
            assert((reading[q] >= i) == read_between(program, q as i32, i, n as int));
        }
    }
    Ok(last_use)
}

// ---------------------------------------------------------------------------
// Moving the columns
// ---------------------------------------------------------------------------
/// The needed planes hold the listed shots and clear bits behind them; all other words
/// are as they were.
pub open spec fn moved_planes(
    before: Seq<u64>,
    after: Seq<u64>,
    stride: int,
    list: Seq<int>,
    planes: int,
    needed: spec_fn(int) -> bool,
) -> bool {
    &&& after.len() == before.len()
    &&& forall|q: int, j: int|
        0 <= q < planes && needed(q) && 0 <= j < 64 * stride ==> #[trigger] plane_bit(
            after,
            stride,
            q,
            j,
        ) == (j < list.len() && plane_bit(before, stride, q, list[j]))
    &&& forall|q: int, j: int|
        0 <= q < planes && !needed(q) ==> #[trigger] plane_bit(after, stride, q, j) == plane_bit(
            before,
            stride,
            q,
            j,
        )
    &&& forall|w: int| planes * stride <= w < before.len() ==> #[trigger] after[w] == before[w]
}

/// Planes that end with the last shot still do once they have moved.
proof fn lemma_moved_records_end(
    before: Seq<u64>,
    after: Seq<u64>,
    stride: int,
    list: Seq<int>,
    planes: int,
    needed: spec_fn(int) -> bool,
    shots: int,
)
    requires
        moved_planes(before, after, stride, list, planes, needed),
        records_end(before, stride, planes, shots),
        0 <= list.len() <= shots,
    ensures
        records_end(after, stride, planes, shots),
{
    reveal(records_end);
    assert forall|q: int, i: int| 0 <= q < planes && shots <= i implies !#[trigger] plane_bit(
        after,
        stride,
        q,
        i,
    ) by {
        if i < 64 * stride && !needed(q) {
            assert(plane_bit(after, stride, q, i) == plane_bit(before, stride, q, i));
        }
    }
}

/// Compresses the needed planes down to the kept shots. The others keep their bits.
fn compact_planes(
    columns: &mut Vec<u64>,
    stride_words: usize,
    old_shots: usize,
    keep_bits: &[u64],
    needed: &Vec<bool>,
)
    requires
        needed@.len() * stride_words <= old(columns)@.len(),
        words_for_bits(old_shots as int) <= stride_words,
        words_for_bits(old_shots as int) <= keep_bits@.len(),
    ensures
        moved_planes(
            old(columns)@,
            final(columns)@,
            stride_words as int,
            survivors(keep_bits@, old_shots as int),
            needed@.len() as int,
            |q: int| needed@[q],
        ),
{
    let ghost start = columns@;
    let ghost st = stride_words as int;
    let ghost list = survivors(keep_bits@, old_shots as int);
    let ghost planes = needed@.len() as int;
    let mut q: usize = 0;
    while q < needed.len()
        invariant
            q <= needed@.len(),
            planes == needed@.len(),
            st == stride_words,
            columns@.len() == start.len(),
            planes * stride_words <= columns@.len(),
            words_for_bits(old_shots as int) <= stride_words,
            words_for_bits(old_shots as int) <= keep_bits@.len(),
            list == survivors(keep_bits@, old_shots as int),
            forall|p: int, i: int|
                0 <= p < planes && (q <= p || !needed@[p]) ==> #[trigger] plane_bit(
                    columns@,
                    st,
                    p,
                    i,
                ) == plane_bit(start, st, p, i),
            forall|p: int, j: int|
                0 <= p < q && needed@[p] && 0 <= j < 64 * st ==> #[trigger] plane_bit(
                    columns@,
                    st,
                    p,
                    j,
                ) == (j < list.len() && plane_bit(start, st, p, list[j])),
            forall|w: int| planes * st <= w < start.len() ==> #[trigger] columns@[w] == start[w],
        decreases needed@.len() - q,
    {
        if needed[q] {
            let ghost before = columns@;
            compact_plane(columns, q, stride_words, old_shots, keep_bits, Ghost(planes));
            proof {
                assert forall|p: int, j: int|
                    0 <= p < q + 1 && needed@[p] && 0 <= j < 64 * st implies #[trigger] plane_bit(
                    columns@,
                    st,
                    p,
                    j,
                ) == (j < list.len() && plane_bit(start, st, p, list[j])) by {
                    if p < q {
                        assert(plane_bit(columns@, st, p, j) == plane_bit(before, st, p, j));
                    } else if j < list.len() {
                        assert(plane_bit(before, st, p, list[j]) == plane_bit(start, st, p, list[j]));
                    }
                }
                assert forall|p: int, i: int|
                    0 <= p < planes && (q + 1 <= p || !needed@[p]) implies #[trigger] plane_bit(
                    columns@,
                    st,
                    p,
                    i,
                ) == plane_bit(start, st, p, i) by {
                    assert(plane_bit(columns@, st, p, i) == plane_bit(before, st, p, i));
                }
                assert(q * st + st <= planes * st) by (nonlinear_arith)
                    requires
                        q + 1 <= planes,
                        0 <= st,
                ;
                assert forall|w: int| planes * st <= w < start.len() implies #[trigger] columns@[w]
                    == start[w] by {
                    assert(columns@[w] == before[w]);
                }
            }
        }
        q += 1;
    }
}

/// Which entries of a last-use table reach `from`, skipping `skip` entries.
fn needed_planes(last_use: &Vec<i32>, skip: usize, planes: usize, from: i32) -> (r: Vec<bool>)
    requires
        skip + planes <= usize::MAX,
    ensures
        r@.len() == planes,
        forall|q: int|
            0 <= q < planes ==> #[trigger] r@[q] == reaches(last_use@, q + skip, from as int),
{
    let mut out: Vec<bool> = Vec::new();
    let mut q: usize = 0;
    while q < planes
        invariant
            q <= planes,
            skip + planes <= usize::MAX,
            out@.len() == q,
            forall|p: int|
                0 <= p < q ==> #[trigger] out@[p] == (p + skip < last_use@.len() && last_use@[p + skip]
                    >= from),
        decreases planes - q,
    {
        out.push(q + skip < last_use.len() && last_use[q + skip] >= from);
        q += 1;
    }
    out
}

/// Which assigned symbols are used from `from` on.
fn needed_symbols<A: Copy>(
    runtime: &BatchFactoredExecutorState<A>,
    last_use: &Vec<i32>,
    from: i32,
) -> (r: Vec<bool>)
    requires
        runtime.nsymbols < i32::MAX,
        runtime.planes_wf(),
    ensures
        r@.len() == runtime.nsymbols,
        forall|q: int|
            0 <= q < runtime.nsymbols ==> #[trigger] r@[q] == (runtime.assigned((q + 1) as i32)
                && reaches(last_use@, q + 1, from as int)),
{
    let mut out: Vec<bool> = Vec::new();
    let mut q: usize = 0;
    while q < runtime.nsymbols
        invariant
            q <= runtime.nsymbols,
            runtime.nsymbols < i32::MAX,
            runtime.planes_wf(),
            out@.len() == q,
            forall|p: int|
                0 <= p < q ==> #[trigger] out@[p] == (runtime.assigned((p + 1) as i32) && reaches(
                    last_use@,
                    p + 1,
                    from as int,
                )),
        decreases runtime.nsymbols - q,
    {
        let assigned: bool = match batch_symbol_assigned(runtime, (q + 1) as i32) {
            Ok(assigned) => assigned,
            Err(_) => false,
        };
        out.push(assigned && q + 1 < last_use.len() && last_use[q + 1] >= from);
        q += 1;
    }
    out
}

/// The last use of entry `at` of a table reaches `from`.
pub open spec fn reaches(last_use: Seq<i32>, at: int, from: int) -> bool {
    at < last_use.len() && last_use[at] >= from
}

/// What a compaction at `from` leaves: the live shots of every column that is still
/// read. Columns that are not, and unassigned symbols, keep their bits. Nothing changes
/// where all shots are kept, and nothing but the number of shots where none is.
pub open spec fn compacted<A: Copy>(
    before: &BatchFactoredExecutorState<A>,
    after: &BatchFactoredExecutorState<A>,
    keep: Seq<u64>,
    condition_last_use: Seq<i32>,
    record_last_use: Seq<i32>,
    from: int,
) -> bool {
    let list = survivors(keep, before.active_shots as int);
    let stride = before.batch_words as int;
    &&& list.len() == before.active_shots ==> *after == *before
    &&& list.len() == 0 ==> *after == (BatchFactoredExecutorState { active_shots: 0, ..*before })
    &&& *after == (BatchFactoredExecutorState {
        active_shots: after.active_shots,
        active: after.active,
        active_components: after.active_components,
        exp_values: after.exp_values,
        value_words: after.value_words,
        measurement_words: after.measurement_words,
        detector_words: after.detector_words,
        ..*before
    })
    &&& 0 < list.len() < before.active_shots ==> {
        &&& moved_planes(
            before.value_words@,
            after.value_words@,
            stride,
            list,
            before.nsymbols as int,
            |q: int|
                before.assigned((q + 1) as i32) && reaches(condition_last_use, q + 1, from),
        )
        &&& moved_planes(
            before.measurement_words@,
            after.measurement_words@,
            stride,
            list,
            before.nrecords as int,
            |q: int| reaches(record_last_use, q + 1, from),
        )
        &&& moved_planes(
            before.detector_words@,
            after.detector_words@,
            stride,
            list,
            if before.store_detector_records {
                before.ndetectors as int
            } else {
                0
            },
            |q: int| true,
        )
    }
    &&& after.active_shots == list.len()
    &&& after.same_frame(before)
    &&& after.ready()
    &&& after.k == before.k
    &&& after.ndormant == before.ndormant
    &&& after.nrecords == before.nrecords
    &&& after.ndetectors == before.ndetectors
    &&& after.rng_state == before.rng_state
    &&& after.assigned_words == before.assigned_words
    &&& after.parts() == before.parts()
    &&& forall|j: int, p: int|
        0 <= j < list.len() && 0 <= p < before.part_count() ==> #[trigger] after.lane(j, p)
            == before.lane(list[j], p)
    &&& forall|c: i32, j: int|
        before.known().contains(c) && condition_last_use[c as int] >= from && 0 <= j < list.len()
            ==> #[trigger] after.value_bit(c, j) == before.value_bit(c, list[j])
    &&& forall|q: int, j: int|
        0 < q <= before.nrecords && q < record_last_use.len() && record_last_use[q] >= from && 0 <= j
            < list.len() ==> #[trigger] after.record_bit(q, j) == before.record_bit(q, list[j])
    &&& before.store_detector_records ==> forall|q: int, j: int|
        0 < q <= before.ndetectors && 0 <= j < list.len() ==> #[trigger] after.detector_bit(q, j)
            == before.detector_bit(q, list[j])
    &&& forall|e: int, j: int|
        0 <= e < before.nexpvals && 0 <= j < list.len() ==> after.exp_values@[#[trigger] entry(
            e,
            before.batches as int,
            j,
        )] == before.exp_values@[entry(e, before.batches as int, list[j])]
}

/// Moves the amplitudes of the listed shots to the front.
fn compact_active_columns<A: Copy>(runtime: &mut BatchFactoredExecutorState<A>, live_sources: &Vec<usize>)
    requires
        old(runtime).ready(),
        live_sources@.len() <= old(runtime).active_shots,
        forall|j: int|
            0 <= j < live_sources@.len() ==> j <= #[trigger] live_sources@[j]
                < old(runtime).active_shots,
        forall|i: int, j: int|
            0 <= i < j < live_sources@.len() ==> live_sources@[i] < live_sources@[j],
    ensures
        final(runtime).ready(),
        *final(runtime) == (BatchFactoredExecutorState {
            active: final(runtime).active,
            active_components: final(runtime).active_components,
            ..*old(runtime)
        }),
        final(runtime).parts() == old(runtime).parts(),
        final(runtime).part_count() == old(runtime).part_count(),
        forall|j: int, p: int|
            0 <= j < live_sources@.len() && 0 <= p < old(runtime).part_count() ==> (
            #[trigger] final(runtime).lane(j, p)) == old(runtime).lane(live_sources@[j] as int, p),
{
    let pitch: usize = runtime.active_pitch;
    let shot_major: bool = runtime.dense_shot_major_active;
    if !runtime.active_components_enabled {
        let layout: LaneLayout = LaneLayout { shot_major, stride: runtime.active_stride, pitch };
        let dim: usize = match active_length(runtime.k) {
            Ok(dim) => dim,
            Err(_) => {
                assert(false);
                0
            },
        };
        compact_lanes(&mut runtime.active, layout, dim, live_sources);
        proof {
            assert forall|c: i32| #[trigger] runtime.assigned(c) && c > 0 implies c
                <= runtime.nsymbols by {
                assert(old(runtime).assigned(c));
            }
            assert(runtime.parts() =~= old(runtime).parts());
            assert forall|j: int, p: int|
                0 <= j < live_sources@.len() && 0 <= p < old(runtime).part_count() implies (
            #[trigger] runtime.lane(j, p)) == old(runtime).lane(live_sources@[j] as int, p) by {
                assert(runtime.lane(j, p) == layout.lane(runtime.active@, j, dim as int));
            }
        }
        return ;
    }
    let mut p: usize = 0;
    while p < runtime.active_components.len()
        invariant
            p <= runtime.active_components@.len(),
            old(runtime).ready(),
            old(runtime).active_components_enabled,
            pitch == old(runtime).active_pitch,
            shot_major == old(runtime).dense_shot_major_active,
            *runtime == (BatchFactoredExecutorState {
                active_components: runtime.active_components,
                ..*old(runtime)
            }),
            runtime.active_components@.len() == old(runtime).active_components@.len(),
            live_sources@.len() <= old(runtime).active_shots,
            forall|j: int|
                0 <= j < live_sources@.len() ==> j <= #[trigger] live_sources@[j]
                    < old(runtime).active_shots,
            forall|i: int, j: int|
                0 <= i < j < live_sources@.len() ==> live_sources@[i] < live_sources@[j],
            forall|q: int|
                p <= q < runtime.active_components@.len() ==> runtime.active_components@[q]
                    == old(runtime).active_components@[q],
            forall|q: int|
                0 <= q < runtime.active_components@.len() ==> {
                    &&& (#[trigger] runtime.active_components@[q]).k
                        == old(runtime).active_components@[q].k
                    &&& runtime.active_components@[q].active
                        == old(runtime).active_components@[q].active
                    &&& runtime.active_components@[q].stride
                        == old(runtime).active_components@[q].stride
                    &&& runtime.active_components@[q].amplitudes@.len()
                        == old(runtime).active_components@[q].amplitudes@.len()
                },
            forall|j: int, q: int|
                0 <= j < live_sources@.len() && 0 <= q < p ==> (#[trigger] runtime.lane(j, q))
                    == old(runtime).lane(live_sources@[j] as int, q),
        decreases runtime.active_components@.len() - p,
    {
        let ghost before = *runtime;
        assert(component_wf(old(runtime).active_components@[p as int], pitch as int));
        if runtime.active_components[p].active {
            let layout: LaneLayout = LaneLayout {
                shot_major,
                stride: runtime.active_components[p].stride,
                pitch,
            };
            let dim: usize = match active_length(runtime.active_components[p].k) {
                Ok(dim) => dim,
                Err(_) => {
                    assert(false);
                    0
                },
            };
            compact_lanes(
                &mut runtime.active_components[p].amplitudes,
                layout,
                dim,
                live_sources,
            );
            proof {
                assert forall|j: int, q: int|
                    0 <= j < live_sources@.len() && 0 <= q < p + 1 implies (
                #[trigger] runtime.lane(j, q)) == old(runtime).lane(live_sources@[j] as int, q) by {
                    if q < p {
                        assert(runtime.active_components@[q] == before.active_components@[q]);
                        assert(runtime.lane(j, q) == before.lane(j, q));
                    } else {
                        assert(runtime.lane(j, q) == layout.lane(
                            runtime.active_components@[q].amplitudes@,
                            j,
                            dim as int,
                        ));
                        assert(old(runtime).lane(live_sources@[j] as int, q) == layout.lane(
                            old(runtime).active_components@[q].amplitudes@,
                            live_sources@[j] as int,
                            dim as int,
                        ));
                    }
                }
            }
        } else {
            proof {
                assert forall|j: int, q: int|
                    0 <= j < live_sources@.len() && 0 <= q < p + 1 implies (
                #[trigger] runtime.lane(j, q)) == old(runtime).lane(live_sources@[j] as int, q) by {}
            }
        }
        p += 1;
    }
    proof {
        assert forall|c: i32| #[trigger] runtime.assigned(c) && c > 0 implies c <= runtime.nsymbols by {
            assert(old(runtime).assigned(c));
        }
        assert forall|q: int| 0 <= q < runtime.active_components@.len() implies component_wf(
            #[trigger] runtime.active_components@[q],
            pitch as int,
        ) by {
            assert(component_wf(old(runtime).active_components@[q], pitch as int));
        }
        assert(runtime.parts() =~= old(runtime).parts());
    }
}

/// Reduces the executor to the kept shots. Columns whose last use lies before
/// `from` keep the bits they had.
#[verifier::rlimit(60)]
pub fn compact_surviving_shots<A: Copy>(
    runtime: &mut BatchFactoredExecutorState<A>,
    keep_bits: &[u64],
    condition_last_use: &Vec<i32>,
    record_last_use: &Vec<i32>,
    from: i32,
    expression_words: &mut Vec<u64>,
    expression_last_use: Option<&Vec<i32>>,
)
    requires
        old(runtime).ready(),
        keep_bits@.len() >= old(runtime).live_words(),
        condition_last_use@.len() == old(runtime).nsymbols + 1,
        old(runtime).nsymbols < i32::MAX,
        old(runtime).nrecords <= i32::MAX,
        match expression_last_use {
            Some(last_use) => old(expression_words)@.len() >= last_use@.len()
                * old(runtime).batch_words,
            None => true,
        },
    ensures
        compacted(
            old(runtime),
            final(runtime),
            keep_bits@,
            condition_last_use@,
            record_last_use@,
            from as int,
        ),
        final(expression_words)@.len() == old(expression_words)@.len(),
        ({
            let count = survivors(keep_bits@, old(runtime).active_shots as int).len();
            expression_last_use is None || count == 0 || count == old(runtime).active_shots
        }) ==> final(expression_words)@ == old(expression_words)@,
        match expression_last_use {
            Some(last_use) => {
                &&& ({
                    let list = survivors(keep_bits@, old(runtime).active_shots as int);
                    0 < list.len() < old(runtime).active_shots ==> moved_planes(
                        old(expression_words)@,
                        final(expression_words)@,
                        old(runtime).batch_words as int,
                        list,
                        last_use@.len() as int,
                        |e: int| reaches(last_use@, e, from as int),
                    )
                })
                &&& forall|e: int, j: int|
                    0 <= e < last_use@.len() && last_use@[e] >= from && 0 <= j < survivors(
                        keep_bits@,
                        old(runtime).active_shots as int,
                    ).len() ==> #[trigger] plane_bit(
                        final(expression_words)@,
                        old(runtime).batch_words as int,
                        e,
                        j,
                    ) == plane_bit(
                        old(expression_words)@,
                        old(runtime).batch_words as int,
                        e,
                        survivors(keep_bits@, old(runtime).active_shots as int)[j],
                    )
            },
            None => true,
        },
{
    let shots: usize = runtime.active_shots;
    let stride: usize = runtime.batch_words;
    let ghost n = shots as int;
    let ghost list = survivors(keep_bits@, n);
    let count: usize = count_live_bits(keep_bits, shots);
    proof {
        lemma_survivors(keep_bits@, n);
    }
    if count == shots {
        proof {
            lemma_full(keep_bits@, n);
        }
        return ;
    }
    if count == 0 {
        runtime.active_shots = 0;
        proof {
            assert forall|c: i32| #[trigger] runtime.assigned(c) && c > 0 implies c
                <= runtime.nsymbols by {
                assert(old(runtime).assigned(c));
            }
            crate::refine::lemma_same_active(old(runtime), runtime);
        }
        return ;
    }
    let values: Vec<bool> = needed_symbols(runtime, condition_last_use, from);
    let live_sources: Vec<usize> = collect_live_sources(keep_bits, shots);
    proof {
        assert forall|j: int| 0 <= j < live_sources@.len() implies j <= #[trigger] live_sources@[j]
            < shots by {
            assert(list[j] == live_sources@[j]);
        }
        assert forall|i: int, j: int| 0 <= i < j < live_sources@.len() implies live_sources@[i]
            < live_sources@[j] by {
            assert(list[i] < list[j]);
        }
    }
    compact_active_columns(runtime, &live_sources);
    let ghost moved = *runtime;
    compact_dense_columns(
        &mut runtime.exp_values,
        runtime.nexpvals,
        runtime.batches,
        &live_sources,
    );
    if let Some(last_use) = expression_last_use {
        let needed: Vec<bool> = needed_planes(last_use, 0, last_use.len(), from);
        compact_planes(expression_words, stride, shots, keep_bits, &needed);
    }
    compact_planes(&mut runtime.value_words, stride, shots, keep_bits, &values);
    let records: Vec<bool> = needed_planes(record_last_use, 1, runtime.nrecords, from);
    compact_planes(&mut runtime.measurement_words, stride, shots, keep_bits, &records);
    if runtime.store_detector_records {
        let all: Vec<bool> = filled_list(runtime.ndetectors, true);
        compact_planes(&mut runtime.detector_words, stride, shots, keep_bits, &all);
    }
    runtime.active_shots = count;
    proof {
        assert forall|c: i32| #[trigger] runtime.assigned(c) && c > 0 implies c <= runtime.nsymbols by {
            assert(old(runtime).assigned(c));
        }
        lemma_moved_records_end(
            old(runtime).measurement_words@,
            runtime.measurement_words@,
            stride as int,
            list,
            runtime.nrecords as int,
            |q: int| records@[q],
            runtime.batches as int,
        );
        crate::refine::lemma_same_active(&moved, runtime);
        assert forall|j: int, p: int|
            0 <= j < list.len() && 0 <= p < old(runtime).part_count() implies #[trigger] runtime.lane(
            j,
            p,
        ) == old(runtime).lane(list[j], p) by {
            assert(moved.lane(j, p) == old(runtime).lane(live_sources@[j] as int, p));
        }
        assert forall|c: i32, j: int|
            old(runtime).known().contains(c) && condition_last_use@[c as int] >= from && 0 <= j
                < list.len() implies #[trigger] runtime.value_bit(c, j) == old(runtime).value_bit(
            c,
            list[j],
        ) by {
            assert(old(runtime).assigned(c));
            assert(values@[c - 1]);
        }
        assert forall|q: int, j: int|
            0 < q <= old(runtime).nrecords && q < record_last_use@.len() && record_last_use@[q] >= from
                && 0 <= j < list.len() implies #[trigger] runtime.record_bit(q, j) == old(
            runtime,
        ).record_bit(q, list[j]) by {
            assert(records@[q - 1]);
        }
        assert forall|e: int, j: int|
            0 <= e < old(runtime).nexpvals && 0 <= j < list.len() implies runtime.exp_values@[
            #[trigger] entry(e, old(runtime).batches as int, j)
        ] == old(runtime).exp_values@[entry(e, old(runtime).batches as int, list[j])] by {
            assert(live_sources@[j] == list[j]);
        }
    }
}

/// Where all are kept, each stays in place.
proof fn lemma_full(keep: Seq<u64>, n: int)
    requires
        0 <= n,
        survivors(keep, n).len() == n,
    ensures
        forall|j: int| 0 <= j < n ==> #[trigger] survivors(keep, n)[j] == j,
    decreases n,
{
    if n > 0 {
        lemma_survivors(keep, n - 1);
        lemma_full(keep, n - 1);
    }
}

} // verus!
