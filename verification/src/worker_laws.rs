//! What the number of workers and the packing of rows leave alone.
use vstd::prelude::*;
use vstd::seq_lib::lemma_multiset_commutative;
use crate::chunks::{block_start, chunk_left, lemma_select_counts, ChunkNoise};
use crate::kernels::ActiveKernels;
use crate::model::{
    assign, coins, detector_outcomes, measure, measure_branch, merge, merge_from, merge_one, signs,
    step, step_whole, with_detectors, with_lanes, with_records, write_branch, write_measurement,
    Block, Part, Shot,
};
use crate::noise::noise_table;
use crate::outputs::{
    all_exps, law_packed_row_reads_back, law_rows_fill_their_shape, row_bytes, row_width,
    rows_bytes, OutputOptions,
};
use crate::postselect_model::{accepted, discards_at, expected_at, select_run, select_step};
use crate::presampled_expression::PresampledExpressionPlan;
use crate::program::{
    ActiveComponentStepKind, FactoredInstruction, FactoredInstructionProgram, MeasurementKernel,
};
use crate::repeat_laws::{alike, lemma_plans_alike, lemma_select_alike};
use crate::sampler::{workers_for, SamplerPlan};
use crate::schedule::{
    chunk_len, law_counts_do_not_depend_on_workers, law_workers_take_every_chunk_once, left_at,
    sampled, strided_sum, worker_left, workers_left, workers_sum, SampleResult,
};
use crate::symbolic::SymbolicBoolEvaluationPlan;

verus! {

// ---------------------------------------------------------------------------
// Shapes
// ---------------------------------------------------------------------------
/// Every shot has a value for every record and expectation, and for every detector
/// where detectors are stored.
pub open spec fn shaped<A>(b: Block<A>) -> bool {
    forall|s: int|
        0 <= s < b.shots.len() ==> {
            &&& (#[trigger] b.shots[s]).records.len() == b.nrecords
            &&& b.stores_detectors ==> b.shots[s].detectors.len() == b.ndetectors
            &&& b.shots[s].exps.len() == b.nexpvals
        }
}

/// What instructions leave alone of the shape.
spec fn framed<A>(b: Block<A>, after: Block<A>) -> bool {
    after.stores_detectors == b.stores_detectors && after.nexpvals == b.nexpvals
}

proof fn lemma_write_shaped<A>(
    b: Block<A>,
    record: Option<i32>,
    bits: Seq<bool>,
    condition: Option<i32>,
)
    requires
        shaped(b),
    ensures
        match write_measurement(b, record, bits, condition) {
            Ok(after) => shaped(after) && framed(b, after),
            Err(_) => true,
        },
{
    if record is Some {
        assert(record->0 > 0 ==> shaped(with_records(b, record->0 as int, bits)));
    }
}

proof fn lemma_merge_shaped<A, K: ActiveKernels<A>>(
    k: &K,
    b: Block<A>,
    list: Seq<usize>,
    target: int,
    from: int,
    end: int,
)
    requires
        shaped(b),
    ensures
        match merge_from(k, b, list, target, from, end) {
            Ok(after) => shaped(after) && framed(b, after),
            Err(_) => true,
        },
    decreases end - from,
{
    if from < end {
        match merge_one(k, b, target, list[from] as int) {
            Ok(next) => {
                lemma_merge_shaped(k, next, list, target, from + 1, end);
            },
            Err(_) => {},
        }
    }
}

proof fn lemma_measure_shaped<A, K: ActiveKernels<A>>(
    k: &K,
    b: Block<A>,
    j: int,
    kernel: MeasurementKernel,
    branch: i32,
)
    requires
        shaped(b),
    ensures
        match measure_branch(k, b, j, kernel, branch) {
            Ok((after, _)) => shaped(after) && framed(b, after),
            Err(_) => true,
        },
{
    match measure(k, b, j, kernel) {
        Ok((after, branches)) => {
            assert(shaped(after));
        },
        Err(_) => {},
    }
}

proof fn lemma_branch_shaped<A>(
    base: spec_fn(int, int) -> bool,
    plan: PresampledExpressionPlan,
    i: int,
    b: Block<A>,
    branches: Seq<bool>,
    branch: i32,
    outcome_plan: SymbolicBoolEvaluationPlan,
    record: Option<i32>,
    condition: Option<i32>,
)
    requires
        shaped(b),
    ensures
        match write_branch(base, plan, i, b, branches, branch, outcome_plan, record, condition) {
            Ok(after) => shaped(after) && framed(b, after),
            Err(_) => true,
        },
{
    lemma_write_shaped(
        b,
        record,
        Seq::new(b.shots.len(), |s: int| branches[s] != outcome_plan.constant),
        condition,
    );
    lemma_write_shaped(b, record, signs(base, plan, i, b), condition);
}

proof fn lemma_whole_shaped<A, K: ActiveKernels<A>>(
    k: &K,
    base: spec_fn(int, int) -> bool,
    plan: PresampledExpressionPlan,
    ins: FactoredInstruction,
    i: int,
    b: Block<A>,
)
    requires
        shaped(b),
    ensures
        match step_whole(k, base, plan, ins, i, b) {
            Ok(after) => shaped(after) && framed(b, after),
            Err(_) => true,
        },
{
    match ins {
        FactoredInstruction::RecordMeasurement(inst) => {
            lemma_write_shaped(
                b,
                inst.record,
                signs(base, plan, i, b),
                inst.record_condition,
            );
        },
        FactoredInstruction::MeasurePrecomputedActivePauli(inst) => {
            lemma_measure_shaped(k, b, 0, inst.kernel, inst.branch);
            match measure_branch(k, b, 0, inst.kernel, inst.branch) {
                Ok((after, branches)) => {
                    lemma_branch_shaped(
                        base,
                        plan,
                        i,
                        after,
                        branches,
                        inst.branch,
                        inst.outcome_plan,
                        inst.record,
                        inst.record_condition,
                    );
                },
                Err(_) => {},
            }
        },
        FactoredInstruction::IntroduceDormantMeasurementBranch(inst) => {
            let (next, drawn) = coins(k, b);
            match assign(Block { rng: next, ..b }, inst.branch, drawn) {
                Ok(after) => {
                    assert(shaped(after));
                    lemma_branch_shaped(
                        base,
                        plan,
                        i,
                        after,
                        drawn,
                        inst.branch,
                        inst.outcome_plan,
                        inst.record,
                        inst.record_condition,
                    );
                },
                Err(_) => {},
            }
        },
        _ => {},
    }
}

proof fn lemma_step_shaped<A, K: ActiveKernels<A>>(
    k: &K,
    base: spec_fn(int, int) -> bool,
    plan: PresampledExpressionPlan,
    program: &FactoredInstructionProgram,
    i: int,
    b: Block<A>,
)
    requires
        shaped(b),
    ensures
        match step(k, base, plan, program, i, b) {
            Ok(after) => shaped(after) && framed(b, after),
            Err(_) => true,
        },
{
    let ins = program.instructions@[i];
    lemma_whole_shaped(k, base, plan, ins, i, b);
    if b.split {
        let parts = program.active_component_plan->0;
        let at = parts.instruction_steps@[i];
        match at.kind {
            ActiveComponentStepKind::Rotation => {
                let rotation = parts.rotations@[at.payload as int];
                lemma_merge_shaped(
                    k,
                    b,
                    parts.merge_components@,
                    rotation.component as int,
                    rotation.merge_offset as int + 1,
                    rotation.merge_offset as int + rotation.merge_count as int,
                );
            },
            ActiveComponentStepKind::Measurement => match ins {
                FactoredInstruction::MeasurePrecomputedActivePauli(inst) => {
                    let m = parts.measurements@[at.payload as int];
                    let target = m.component as int;
                    lemma_merge_shaped(
                        k,
                        b,
                        parts.merge_components@,
                        target,
                        m.merge_offset as int + 1,
                        m.merge_offset as int + m.merge_count as int,
                    );
                    match merge(
                        k,
                        b,
                        parts.merge_components@,
                        m.merge_offset as int,
                        m.merge_count as int,
                        target,
                    ) {
                        Ok(merged) => {
                            lemma_measure_shaped(k, merged, target, m.kernel, inst.branch);
                            match measure_branch(k, merged, target, m.kernel, inst.branch) {
                                Ok((after, branches)) => {
                                    let left = if m.deactivate_after {
                                        with_lanes(
                                            after,
                                            target,
                                            Part { active: false, ..after.parts[target] },
                                            Seq::new(after.shots.len(), |s: int| Seq::empty()),
                                        )
                                    } else {
                                        after
                                    };
                                    assert(shaped(left));
                                    lemma_branch_shaped(
                                        base,
                                        plan,
                                        i,
                                        left,
                                        branches,
                                        inst.branch,
                                        inst.outcome_plan,
                                        inst.record,
                                        inst.record_condition,
                                    );
                                },
                                Err(_) => {},
                            }
                        },
                        Err(_) => {},
                    }
                },
                _ => {},
            },
            _ => {},
        }
    }
}

proof fn lemma_accepted_from<A>(shots: Seq<Shot<A>>, outcomes: Seq<bool>, expected: bool, n: int)
    requires
        n <= shots.len(),
    ensures
        forall|s: int|
            0 <= s < accepted(shots, outcomes, expected, n).len() ==> shots.contains(
                #[trigger] accepted(shots, outcomes, expected, n)[s],
            ),
    decreases n,
{
    if n > 0 {
        lemma_accepted_from(shots, outcomes, expected, n - 1);
        let before = accepted(shots, outcomes, expected, n - 1);
        assert forall|s: int| 0 <= s < accepted(shots, outcomes, expected, n).len() implies shots.contains(
            #[trigger] accepted(shots, outcomes, expected, n)[s],
        ) by {
            if s < before.len() {
                assert(accepted(shots, outcomes, expected, n)[s] == before[s]);
            } else {
                assert(shots[n - 1] == accepted(shots, outcomes, expected, n)[s]);
            }
        }
    }
}

/// What is left of a block has as many records and detectors as it had.
proof fn lemma_select_shaped<A, K: ActiveKernels<A>>(
    k: &K,
    base: spec_fn(int, int) -> bool,
    plan: PresampledExpressionPlan,
    program: &FactoredInstructionProgram,
    expected: Seq<u8>,
    from: int,
    end: int,
    b: Block<A>,
)
    requires
        shaped(b),
    ensures
        match select_run(k, base, plan, program, expected, from, end, b) {
            Ok(left) => shaped(left) && framed(b, left),
            Err(_) => true,
        },
    decreases end - from,
{
    if from < end && b.shots.len() > 0 {
        lemma_step_shaped(k, base, plan, program, from, b);
        match select_step(k, base, plan, program, expected, from, b) {
            Ok(next) => {
                if discards_at(program, b.split, from) {
                    let detector = program.instructions@[from]->RecordDetector_0;
                    let outcomes = detector_outcomes(base, plan, detector, from, b);
                    let after = if b.stores_detectors {
                        with_detectors(b, detector.detector as int, outcomes)
                    } else {
                        b
                    };
                    assert(shaped(after));
                    lemma_accepted_from(
                        after.shots,
                        outcomes,
                        expected_at(expected, detector.detector),
                        after.shots.len() as int,
                    );
                    assert forall|s: int| 0 <= s < next.shots.len() implies {
                        &&& (#[trigger] next.shots[s]).records.len() == next.nrecords
                        &&& next.stores_detectors ==> next.shots[s].detectors.len()
                            == next.ndetectors
                        &&& next.shots[s].exps.len() == next.nexpvals
                    } by {
                        assert(after.shots.contains(next.shots[s]));
                    }
                }
                lemma_select_shaped(k, base, plan, program, expected, from + 1, end, next);
            },
            Err(_) => {},
        }
    }
}

/// The shots have a value for every record, detector and expectation of the program.
pub open spec fn full_rows<A>(program: &FactoredInstructionProgram, keep: bool, shots: Seq<Shot<A>>) -> bool {
    forall|s: int|
        0 <= s < shots.len() ==> {
            &&& (#[trigger] shots[s]).records.len() == program.nrecords
            &&& keep ==> shots[s].detectors.len() == program.ndetectors
            &&& shots[s].exps.len() == program.nexpvals
        }
}

proof fn lemma_chunk_full<A, K: ActiveKernels<A>>(
    k: &K,
    plan: &SamplerPlan,
    base: spec_fn(int, int) -> bool,
    keep: bool,
    shots: int,
    seeds: Seq<u64>,
    offset: int,
    local: int,
)
    requires
        plan.wf(),
    ensures
        match chunk_left::<A, K>(k, plan, base, keep, shots, seeds, offset, local) {
            Some(left) => full_rows(&plan.program, keep, left),
            None => true,
        },
    decreases shots - offset,
{
    let batch = plan.options.batch_size as int;
    if offset < shots && batch > 0 {
        let n = if batch < shots - offset {
            batch
        } else {
            shots - offset
        };
        let start = block_start::<A, K>(k, plan, keep, seeds[local], n, offset);
        assert(shaped(start));
        lemma_select_shaped(
            k,
            base,
            plan.expression_plan,
            &plan.program,
            plan.options.expected_detectors@,
            0,
            plan.program.instructions@.len() as int,
            start,
        );
        lemma_select_counts(
            k,
            base,
            plan.expression_plan,
            &plan.program,
            plan.options.expected_detectors@,
            0,
            plan.program.instructions@.len() as int,
            start,
        );
        lemma_chunk_full::<A, K>(k, plan, base, keep, shots, seeds, offset + n, local + 1);
    }
}

proof fn lemma_worker_full<A, K: ActiveKernels<A>>(
    k: &K,
    plan: &SamplerPlan,
    keep: bool,
    shots: int,
    noise: Seq<ChunkNoise>,
    c: int,
    t: int,
)
    requires
        plan.wf(),
    ensures
        match worker_left::<A, K>(k, plan, keep, shots, noise, c, t) {
            Some(left) => full_rows(&plan.program, keep, left),
            None => true,
        },
    decreases
            if c < noise.len() {
                noise.len() - c
            } else {
                0
            },
{
    if c < noise.len() && t > 0 {
        let n = chunk_len(shots, plan.options.sample_chunk_shots as int, c);
        lemma_chunk_full::<A, K>(
            k,
            plan,
            noise_table(plan.expression_plan, &plan.program, noise[c].draws, n),
            keep,
            n,
            noise[c].branch_seeds@,
            0,
            0,
        );
        lemma_worker_full::<A, K>(k, plan, keep, shots, noise, c + t, t);
    }
}

/// Every shot that is left has one value for every record and expectation of the
/// program, and for every detector where outputs are kept.
pub proof fn law_left_shots_have_every_output<A, K: ActiveKernels<A>>(
    k: &K,
    plan: &SamplerPlan,
    keep: bool,
    shots: int,
    noise: Seq<ChunkNoise>,
    w: int,
    t: int,
)
    requires
        plan.wf(),
    ensures
        match workers_left::<A, K>(k, plan, keep, shots, noise, w, t) {
            Some(left) => full_rows(&plan.program, keep, left),
            None => true,
        },
    decreases w,
{
    if w > 0 {
        law_left_shots_have_every_output::<A, K>(k, plan, keep, shots, noise, w - 1, t);
        lemma_worker_full::<A, K>(k, plan, keep, shots, noise, w - 1, t);
    }
}

// ---------------------------------------------------------------------------
// Rows among bytes
// ---------------------------------------------------------------------------
/// Row `r` of rows of one length stands at its place among the bytes.
proof fn lemma_row_at(rows: Seq<Seq<bool>>, columns: int, bit_packed: bool, r: int)
    requires
        0 <= columns,
        0 <= r < rows.len(),
        forall|i: int| 0 <= i < rows.len() ==> (#[trigger] rows[i]).len() == columns,
    ensures
        ({
            let width = row_width(columns, bit_packed);
            &&& 0 <= r * width <= (r + 1) * width <= rows_bytes(rows, bit_packed).len()
            &&& (r + 1) * width == r * width + width
            &&& rows_bytes(rows, bit_packed).subrange(r * width, (r + 1) * width) == row_bytes(
                rows[r],
                bit_packed,
            )
        }),
    decreases rows.len(),
{
    let width = row_width(columns, bit_packed);
    let rest = rows.drop_last();
    let n = rest.len() as int;
    assert forall|i: int| 0 <= i < rest.len() implies (#[trigger] rest[i]).len() == columns by {
        assert(rest[i] == rows[i]);
    }
    law_rows_fill_their_shape(rows, columns, bit_packed);
    law_rows_fill_their_shape(rest, columns, bit_packed);
    assert((r + 1) * width == r * width + width && 0 <= r * width) by (nonlinear_arith)
        requires
            0 <= r,
            0 <= width,
    ;
    assert((n + 1) * width == n * width + width) by (nonlinear_arith);
    assert((r + 1) * width <= (n + 1) * width) by (nonlinear_arith)
        requires
            r <= n,
            0 <= width,
    ;
    assert(rows.last().len() == columns);
    let all = rows_bytes(rows, bit_packed);
    if r == n {
        assert(all.subrange(r * width, (r + 1) * width) =~= row_bytes(rows[r], bit_packed));
    } else {
        lemma_row_at(rest, columns, bit_packed, r);
        assert((r + 1) * width <= n * width) by (nonlinear_arith)
            requires
                r + 1 <= n,
                0 <= width,
        ;
        assert(rest[r] == rows[r]);
        assert(all.subrange(r * width, (r + 1) * width) =~= rows_bytes(rest, bit_packed).subrange(
            r * width,
            (r + 1) * width,
        ));
    }
}

/// Entry `c` of row `r` of unpacked rows.
pub open spec fn plain_entry(bytes: Seq<u8>, columns: int, r: int, c: int) -> u8 {
    bytes[r * columns + c]
}

/// Bit `c` of row `r` of packed rows.
pub open spec fn packed_entry(bytes: Seq<u8>, columns: int, r: int, c: int) -> u8 {
    (bytes[r * row_width(columns, true) + c / 8] >> ((c % 8) as u8)) & 1u8
}

/// The packed rows hold the bits of the unpacked ones, and clear bits behind them.
pub open spec fn packs(packed: Seq<u8>, plain: Seq<u8>, rows: int, columns: int) -> bool {
    &&& plain.len() == rows * columns
    &&& packed.len() == rows * row_width(columns, true)
    &&& forall|r: int, c: int|
        0 <= r < rows && 0 <= c < 8 * row_width(columns, true) ==> #[trigger] packed_entry(
            packed,
            columns,
            r,
            c,
        ) == if c < columns {
            plain_entry(plain, columns, r, c)
        } else {
            0u8
        }
}

proof fn lemma_packs(rows: Seq<Seq<bool>>, columns: int)
    requires
        0 <= columns,
        forall|i: int| 0 <= i < rows.len() ==> (#[trigger] rows[i]).len() == columns,
    ensures
        packs(rows_bytes(rows, true), rows_bytes(rows, false), rows.len() as int, columns),
{
    let packed = rows_bytes(rows, true);
    let plain = rows_bytes(rows, false);
    let width = row_width(columns, true);
    law_rows_fill_their_shape(rows, columns, true);
    law_rows_fill_their_shape(rows, columns, false);
    assert forall|r: int, c: int| 0 <= r < rows.len() && 0 <= c < 8 * width implies #[trigger] packed_entry(
        packed,
        columns,
        r,
        c,
    ) == if c < columns {
        plain_entry(plain, columns, r, c)
    } else {
        0u8
    } by {
        lemma_row_at(rows, columns, true, r);
        lemma_row_at(rows, columns, false, r);
        assert(rows[r].len() == columns);
        law_packed_row_reads_back(rows[r], c);
        assert(packed.subrange(r * width, (r + 1) * width)[c / 8] == packed[r * width + c / 8]);
        if c < columns {
            assert(plain.subrange(r * columns, (r + 1) * columns)[c] == plain[r * columns + c]);
        }
    }
}

/// Packing changes the layout of the rows and nothing else: of two calls that differ
/// in `bit_packed` alone, bit `c` of a packed row is entry `c` of the unpacked one.
pub proof fn law_packing_changes_the_layout_alone<A, K: ActiveKernels<A>>(
    k: &K,
    plan: &SamplerPlan,
    shots: int,
    noise: Seq<ChunkNoise>,
    plain: SampleResult,
    packed: SampleResult,
)
    requires
        plan.wf(),
        sampled::<A, K>(k, plan, true, false, shots, noise, plain),
        sampled::<A, K>(k, plan, true, true, shots, noise, packed),
    ensures
        packed.tally.counts == plain.tally.counts,
        packed.record_rows == plain.record_rows,
        packed.active_threads == plain.active_threads,
        packed.tally.observable_ones@ == plain.tally.observable_ones@,
        packed.tally.exp_vals@ == plain.tally.exp_vals@,
        packs(
            packed.tally.measurements@,
            plain.tally.measurements@,
            plain.record_rows as int,
            plan.program.nrecords as int,
        ),
        packs(
            packed.tally.detectors@,
            plain.tally.detectors@,
            plain.record_rows as int,
            plan.program.ndetectors as int,
        ),
        packs(
            packed.tally.observables@,
            plain.tally.observables@,
            plain.record_rows as int,
            plan.observable_records@.len() as int,
        ),
{
    let t = workers_for(plan.options.threads as int, noise.len() as int);
    let o = plan.outputs(true, false);
    let p = plan.outputs(true, true);
    law_left_shots_have_every_output::<A, K>(k, plan, true, shots, noise, t, t);
    let left = workers_left::<A, K>(k, plan, true, shots, noise, t, t)->0;
    lemma_same_observables(&o, &p, left);
    assert(packed.tally.observable_ones@ =~= plain.tally.observable_ones@);
    assert(o.measurement_rows(left) =~= p.measurement_rows(left));
    assert forall|s: int| 0 <= s < left.len() implies #[trigger] o.detector_row(left[s])
        == p.detector_row(left[s]) by {
        assert(o.detector_row(left[s]) =~= p.detector_row(left[s]));
    }
    assert forall|s: int| 0 <= s < left.len() implies #[trigger] o.observable_row(left[s])
        == p.observable_row(left[s]) by {
        assert(o.observable_row(left[s]) =~= p.observable_row(left[s])) by {
            assert forall|i: int| 0 <= i < o.observable_records@.len() implies o.observable_bit(
                left[s],
                i,
            ) == p.observable_bit(left[s], i) by {}
        }
    }
    assert(o.detector_rows(left) =~= p.detector_rows(left));
    assert(o.observable_rows(left) =~= p.observable_rows(left));
    lemma_packs(o.measurement_rows(left), plan.program.nrecords as int);
    lemma_packs(o.detector_rows(left), plan.program.ndetectors as int);
    lemma_packs(o.observable_rows(left), plan.observable_records@.len() as int);
}

/// Options that differ in the packing alone count the same.
proof fn lemma_same_observables<'a, A>(
    o: &OutputOptions<'a>,
    p: &OutputOptions<'a>,
    shots: Seq<Shot<A>>,
)
    requires
        o.observable_records == p.observable_records,
        o.expected_observables == p.expected_observables,
    ensures
        forall|i: int, n: int| #[trigger] o.ones(shots, i, n) == p.ones(shots, i, n),
{
    assert forall|i: int, n: int| #[trigger] o.ones(shots, i, n) == p.ones(shots, i, n) by {
        lemma_same_ones(o, p, shots, i, n);
    }
}

proof fn lemma_same_ones<'a, A>(
    o: &OutputOptions<'a>,
    p: &OutputOptions<'a>,
    shots: Seq<Shot<A>>,
    i: int,
    n: int,
)
    requires
        o.observable_records == p.observable_records,
        o.expected_observables == p.expected_observables,
    ensures
        o.ones(shots, i, n) == p.ones(shots, i, n),
    decreases n,
{
    if n > 0 {
        lemma_same_ones(o, p, shots, i, n - 1);
    }
}

/// The outputs of a call fill their shapes: one row for every kept shot, with one entry
/// for every record, detector, observable and expectation. Where rows are not kept, all
/// four are empty.
pub proof fn law_outputs_fill_their_shapes<A, K: ActiveKernels<A>>(
    k: &K,
    plan: &SamplerPlan,
    keep: bool,
    packed: bool,
    shots: int,
    noise: Seq<ChunkNoise>,
    result: SampleResult,
)
    requires
        plan.wf(),
        sampled::<A, K>(k, plan, keep, packed, shots, noise, result),
    ensures
        result.record_rows == if keep {
            result.tally.counts.accepted as int
        } else {
            0
        },
        result.tally.measurements@.len() == result.record_rows * row_width(
            plan.program.nrecords as int,
            packed,
        ),
        result.tally.detectors@.len() == result.record_rows * row_width(
            plan.program.ndetectors as int,
            packed,
        ),
        result.tally.observables@.len() == result.record_rows * row_width(
            plan.observable_records@.len() as int,
            packed,
        ),
        result.tally.exp_vals@.len() == result.record_rows * plan.program.nexpvals,
{
    let t = workers_for(plan.options.threads as int, noise.len() as int);
    let o = plan.outputs(keep, packed);
    law_left_shots_have_every_output::<A, K>(k, plan, keep, shots, noise, t, t);
    let left = workers_left::<A, K>(k, plan, keep, shots, noise, t, t)->0;
    if keep {
        law_rows_fill_their_shape(
            o.measurement_rows(left),
            plan.program.nrecords as int,
            packed,
        );
        law_rows_fill_their_shape(o.detector_rows(left), plan.program.ndetectors as int, packed);
        law_rows_fill_their_shape(
            o.observable_rows(left),
            plan.observable_records@.len() as int,
            packed,
        );
        lemma_exps_at(left, plan.program.nexpvals as int, 0);
    } else {
        let a = row_width(plan.program.nrecords as int, packed);
        let b = row_width(plan.program.ndetectors as int, packed);
        let c = row_width(plan.observable_records@.len() as int, packed);
        let d = plan.program.nexpvals as int;
        assert(0 * a == 0 && 0 * b == 0 && 0 * c == 0 && 0 * d == 0) by (nonlinear_arith);
    }
}

// ---------------------------------------------------------------------------
// Workers
// ---------------------------------------------------------------------------
/// Two samplers do the same work: the same program in the same chunks and blocks,
/// with the same outputs. The number of workers and the interned plans may differ.
pub open spec fn same_work(p: &SamplerPlan, q: &SamplerPlan) -> bool {
    &&& p.program == q.program
    &&& p.observable_records == q.observable_records
    &&& p.options.observable == q.options.observable
    &&& p.options.expected_detectors == q.options.expected_detectors
    &&& p.options.expected_observables == q.options.expected_observables
    &&& p.options.sample_chunk_shots == q.options.sample_chunk_shots
    &&& p.options.batch_size == q.options.batch_size
}

proof fn lemma_chunk_same<A, K: ActiveKernels<A>>(
    k: &K,
    p: &SamplerPlan,
    q: &SamplerPlan,
    base_p: spec_fn(int, int) -> bool,
    base_q: spec_fn(int, int) -> bool,
    keep: bool,
    shots: int,
    seeds: Seq<u64>,
    offset: int,
    local: int,
)
    requires
        same_work(p, q),
        alike::<A>(base_p, p.expression_plan, base_q, q.expression_plan, &p.program),
    ensures
        chunk_left::<A, K>(k, p, base_p, keep, shots, seeds, offset, local) == chunk_left::<A, K>(
            k,
            q,
            base_q,
            keep,
            shots,
            seeds,
            offset,
            local,
        ),
    decreases shots - offset,
{
    let batch = p.options.batch_size as int;
    if offset < shots && batch > 0 {
        let n = if batch < shots - offset {
            batch
        } else {
            shots - offset
        };
        lemma_select_alike(
            k,
            base_p,
            p.expression_plan,
            base_q,
            q.expression_plan,
            &p.program,
            p.options.expected_detectors@,
            0,
            p.program.instructions@.len() as int,
            block_start::<A, K>(k, p, keep, seeds[local], n, offset),
        );
        lemma_chunk_same::<A, K>(
            k,
            p,
            q,
            base_p,
            base_q,
            keep,
            shots,
            seeds,
            offset + n,
            local + 1,
        );
    }
}

proof fn lemma_left_same<A, K: ActiveKernels<A>>(
    k: &K,
    p: &SamplerPlan,
    q: &SamplerPlan,
    keep: bool,
    shots: int,
    noise: Seq<ChunkNoise>,
    c: int,
)
    requires
        p.wf(),
        q.wf(),
        same_work(p, q),
    ensures
        left_at::<A, K>(k, p, keep, shots, noise, c) == left_at::<A, K>(
            k,
            q,
            keep,
            shots,
            noise,
            c,
        ),
{
    let n = chunk_len(shots, p.options.sample_chunk_shots as int, c);
    let draws = noise[c].draws;
    lemma_plans_alike::<A>(&p.program, draws, n, p.expression_plan, q.expression_plan);
    lemma_chunk_same::<A, K>(
        k,
        p,
        q,
        noise_table(p.expression_plan, &p.program, draws, n),
        noise_table(q.expression_plan, &p.program, draws, n),
        keep,
        n,
        noise[c].branch_seeds@,
        0,
        0,
    );
}

proof fn lemma_worker_same<A, K: ActiveKernels<A>>(
    k: &K,
    p: &SamplerPlan,
    q: &SamplerPlan,
    keep: bool,
    shots: int,
    noise: Seq<ChunkNoise>,
    c: int,
    t: int,
)
    requires
        p.wf(),
        q.wf(),
        same_work(p, q),
    ensures
        worker_left::<A, K>(k, p, keep, shots, noise, c, t) == worker_left::<A, K>(
            k,
            q,
            keep,
            shots,
            noise,
            c,
            t,
        ),
    decreases
            if c < noise.len() {
                noise.len() - c
            } else {
                0
            },
{
    if c < noise.len() && t > 0 {
        lemma_left_same::<A, K>(k, p, q, keep, shots, noise, c);
        lemma_worker_same::<A, K>(k, p, q, keep, shots, noise, c + t, t);
    }
}

proof fn lemma_workers_same<A, K: ActiveKernels<A>>(
    k: &K,
    p: &SamplerPlan,
    q: &SamplerPlan,
    keep: bool,
    shots: int,
    noise: Seq<ChunkNoise>,
    w: int,
    t: int,
)
    requires
        p.wf(),
        q.wf(),
        same_work(p, q),
    ensures
        workers_left::<A, K>(k, p, keep, shots, noise, w, t) == workers_left::<A, K>(
            k,
            q,
            keep,
            shots,
            noise,
            w,
            t,
        ),
    decreases w,
{
    if w > 0 {
        lemma_workers_same::<A, K>(k, p, q, keep, shots, noise, w - 1, t);
        lemma_worker_same::<A, K>(k, p, q, keep, shots, noise, w - 1, t);
    }
}

/// One row of every output: measurements, detectors, observables and expectations.
pub type OutputRow = (Seq<u8>, Seq<u8>, Seq<u8>, Seq<u64>);

/// The row that a shot gives.
pub open spec fn output_row<'a, A>(o: &OutputOptions<'a>, shot: Shot<A>) -> OutputRow {
    (
        row_bytes(shot.records, o.bit_packed),
        row_bytes(o.detector_row(shot), o.bit_packed),
        row_bytes(o.observable_row(shot), o.bit_packed),
        shot.exps,
    )
}

spec fn shot_rows<'a, A>(o: &OutputOptions<'a>, shots: Seq<Shot<A>>) -> Seq<OutputRow> {
    Seq::new(shots.len(), |s: int| output_row(o, shots[s]))
}

/// Entries `r` of a list of equal rows of `width` entries.
pub open spec fn row_slice<T>(entries: Seq<T>, width: int, r: int) -> Seq<T> {
    entries.subrange(r * width, (r + 1) * width)
}

/// The rows of a result, one for every kept shot.
pub open spec fn result_rows(plan: &SamplerPlan, result: SampleResult) -> Seq<OutputRow> {
    let packed = result.bit_packed;
    Seq::new(
        result.record_rows as nat,
        |r: int|
            (
                row_slice(
                    result.tally.measurements@,
                    row_width(plan.program.nrecords as int, packed),
                    r,
                ),
                row_slice(
                    result.tally.detectors@,
                    row_width(plan.program.ndetectors as int, packed),
                    r,
                ),
                row_slice(
                    result.tally.observables@,
                    row_width(plan.observable_records@.len() as int, packed),
                    r,
                ),
                row_slice(result.tally.exp_vals@, plan.program.nexpvals as int, r),
            ),
    )
}

proof fn lemma_exps_at<A>(shots: Seq<Shot<A>>, width: int, r: int)
    requires
        0 <= width,
        forall|i: int| 0 <= i < shots.len() ==> (#[trigger] shots[i]).exps.len() == width,
    ensures
        all_exps(shots).len() == shots.len() * width,
        0 <= r < shots.len() ==> row_slice(all_exps(shots), width, r) == shots[r].exps,
    decreases shots.len(),
{
    if shots.len() == 0 {
        assert(0 * width == 0) by (nonlinear_arith);
    } else {
        let rest = shots.drop_last();
        let n = rest.len() as int;
        assert forall|i: int| 0 <= i < rest.len() implies (#[trigger] rest[i]).exps.len() == width by {
            assert(rest[i] == shots[i]);
        }
        lemma_exps_at(rest, width, r);
        assert(shots.last().exps.len() == width);
        assert((n + 1) * width == n * width + width) by (nonlinear_arith);
        if 0 <= r < n {
            assert(rest[r] == shots[r]);
            assert((r + 1) * width <= n * width && 0 <= r * width && (r + 1) * width == r * width
                + width) by (nonlinear_arith)
                requires
                    0 <= r,
                    r + 1 <= n,
                    0 <= width,
            ;
            assert(row_slice(all_exps(shots), width, r) =~= row_slice(all_exps(rest), width, r));
        } else if r == n {
            assert(0 <= n * width) by (nonlinear_arith)
                requires
                    0 <= n,
                    0 <= width,
            ;
            assert(row_slice(all_exps(shots), width, r) =~= shots.last().exps);
        }
    }
}

/// The rows of a result are those of the shots that are left.
proof fn lemma_result_rows<A, K: ActiveKernels<A>>(
    k: &K,
    plan: &SamplerPlan,
    packed: bool,
    shots: int,
    noise: Seq<ChunkNoise>,
    result: SampleResult,
)
    requires
        plan.wf(),
        sampled::<A, K>(k, plan, true, packed, shots, noise, result),
    ensures
        ({
            let t = workers_for(plan.options.threads as int, noise.len() as int);
            result_rows(plan, result) == shot_rows(
                &plan.outputs(true, packed),
                workers_left::<A, K>(k, plan, true, shots, noise, t, t)->0,
            )
        }),
{
    let t = workers_for(plan.options.threads as int, noise.len() as int);
    let o = plan.outputs(true, packed);
    law_left_shots_have_every_output::<A, K>(k, plan, true, shots, noise, t, t);
    let left = workers_left::<A, K>(k, plan, true, shots, noise, t, t)->0;
    assert forall|r: int| 0 <= r < left.len() implies result_rows(plan, result)[r] == shot_rows(
        &o,
        left,
    )[r] by {
        lemma_row_at(o.measurement_rows(left), plan.program.nrecords as int, packed, r);
        lemma_row_at(o.detector_rows(left), plan.program.ndetectors as int, packed, r);
        lemma_row_at(o.observable_rows(left), plan.observable_records@.len() as int, packed, r);
        lemma_exps_at(left, plan.program.nexpvals as int, r);
    }
    assert(result_rows(plan, result) =~= shot_rows(&o, left));
}

/// How many shots of each chunk give the row.
spec fn row_counts<'a, A, K: ActiveKernels<A>>(
    k: &K,
    plan: &SamplerPlan,
    keep: bool,
    shots: int,
    noise: Seq<ChunkNoise>,
    o: &OutputOptions<'a>,
    x: OutputRow,
) -> spec_fn(int) -> int {
    |c: int|
        shot_rows(o, left_at::<A, K>(k, plan, keep, shots, noise, c)->0).to_multiset().count(x) as int
}

proof fn lemma_rows_concat<'a, A>(
    o: &OutputOptions<'a>,
    a: Seq<Shot<A>>,
    b: Seq<Shot<A>>,
    x: OutputRow,
)
    ensures
        shot_rows(o, a + b).to_multiset().count(x) == shot_rows(o, a).to_multiset().count(x)
            + shot_rows(o, b).to_multiset().count(x),
{
    assert(shot_rows(o, a + b) =~= shot_rows(o, a) + shot_rows(o, b));
    lemma_multiset_commutative(shot_rows(o, a), shot_rows(o, b));
}

proof fn lemma_worker_rows<'a, A, K: ActiveKernels<A>>(
    k: &K,
    plan: &SamplerPlan,
    keep: bool,
    shots: int,
    noise: Seq<ChunkNoise>,
    c: int,
    t: int,
    o: &OutputOptions<'a>,
    x: OutputRow,
)
    requires
        0 < t,
        worker_left::<A, K>(k, plan, keep, shots, noise, c, t) is Some,
    ensures
        shot_rows(
            o,
            worker_left::<A, K>(k, plan, keep, shots, noise, c, t)->0,
        ).to_multiset().count(x) == strided_sum(
            row_counts::<A, K>(k, plan, keep, shots, noise, o, x),
            c,
            t,
            noise.len() as int,
        ),
    decreases
            if c < noise.len() {
                noise.len() - c
            } else {
                0
            },
{
    broadcast use vstd::seq_lib::group_to_multiset_ensures;

    if c < noise.len() {
        lemma_worker_rows::<A, K>(k, plan, keep, shots, noise, c + t, t, o, x);
        lemma_rows_concat(
            o,
            left_at::<A, K>(k, plan, keep, shots, noise, c)->0,
            worker_left::<A, K>(k, plan, keep, shots, noise, c + t, t)->0,
            x,
        );
    } else {
        assert(shot_rows(o, Seq::<Shot<A>>::empty()) =~= Seq::empty());
    }
}

proof fn lemma_workers_rows<'a, A, K: ActiveKernels<A>>(
    k: &K,
    plan: &SamplerPlan,
    keep: bool,
    shots: int,
    noise: Seq<ChunkNoise>,
    w: int,
    t: int,
    o: &OutputOptions<'a>,
    x: OutputRow,
)
    requires
        0 < t,
        0 <= w,
        workers_left::<A, K>(k, plan, keep, shots, noise, w, t) is Some,
    ensures
        shot_rows(
            o,
            workers_left::<A, K>(k, plan, keep, shots, noise, w, t)->0,
        ).to_multiset().count(x) == workers_sum(
            row_counts::<A, K>(k, plan, keep, shots, noise, o, x),
            w,
            t,
            noise.len() as int,
        ),
    decreases w,
{
    broadcast use vstd::seq_lib::group_to_multiset_ensures;

    if w > 0 {
        lemma_workers_rows::<A, K>(k, plan, keep, shots, noise, w - 1, t, o, x);
        lemma_worker_rows::<A, K>(k, plan, keep, shots, noise, w - 1, t, o, x);
        lemma_rows_concat(
            o,
            workers_left::<A, K>(k, plan, keep, shots, noise, w - 1, t)->0,
            worker_left::<A, K>(k, plan, keep, shots, noise, w - 1, t)->0,
            x,
        );
    } else {
        assert(shot_rows(o, Seq::<Shot<A>>::empty()) =~= Seq::empty());
    }
}

/// The number of workers changes the order of the rows and nothing else: two calls
/// that do the same work under the same noise give the same counts and the same rows,
/// each as often.
pub proof fn law_workers_change_the_order_alone<A, K: ActiveKernels<A>>(
    k: &K,
    p: &SamplerPlan,
    q: &SamplerPlan,
    packed: bool,
    shots: int,
    noise: Seq<ChunkNoise>,
    a: SampleResult,
    b: SampleResult,
)
    requires
        p.wf(),
        q.wf(),
        same_work(p, q),
        sampled::<A, K>(k, p, true, packed, shots, noise, a),
        sampled::<A, K>(k, q, true, packed, shots, noise, b),
    ensures
        a.tally.counts == b.tally.counts,
        a.record_rows == b.record_rows,
        a.tally.observable_ones@ == b.tally.observable_ones@,
        result_rows(p, a).to_multiset() == result_rows(q, b).to_multiset(),
{
    let n = noise.len() as int;
    let t = workers_for(p.options.threads as int, n);
    let u = workers_for(q.options.threads as int, n);
    let o = p.outputs(true, packed);
    assert(o == q.outputs(true, packed));
    lemma_workers_same::<A, K>(k, p, q, true, shots, noise, u, u);
    lemma_result_rows::<A, K>(k, p, packed, shots, noise, a);
    lemma_result_rows::<A, K>(k, q, packed, shots, noise, b);
    let x = workers_left::<A, K>(k, p, true, shots, noise, t, t)->0;
    let y = workers_left::<A, K>(k, p, true, shots, noise, u, u)->0;
    if n == 0 {
        assert(t == 0 && u == 0);
    } else {
        assert forall|e: OutputRow|
            shot_rows(&o, x).to_multiset().count(e) == shot_rows(&o, y).to_multiset().count(e) by {
            let f = row_counts::<A, K>(k, p, true, shots, noise, &o, e);
            lemma_workers_rows::<A, K>(k, p, true, shots, noise, t, t, &o, e);
            lemma_workers_rows::<A, K>(k, p, true, shots, noise, u, u, &o, e);
            law_workers_take_every_chunk_once(f, t, n);
            law_workers_take_every_chunk_once(f, u, n);
        }
        assert(shot_rows(&o, x).to_multiset() =~= shot_rows(&o, y).to_multiset());
        assert forall|i: int| 0 <= i < o.observable_records@.len() implies o.ones(
            x,
            i,
            x.len() as int,
        ) == o.ones(y, i, y.len() as int) by {
            law_counts_do_not_depend_on_workers::<A, K>(k, p, true, shots, noise, t, &o, i);
            law_counts_do_not_depend_on_workers::<A, K>(k, p, true, shots, noise, u, &o, i);
        }
        law_counts_do_not_depend_on_workers::<A, K>(k, p, true, shots, noise, t, &o, 0);
        law_counts_do_not_depend_on_workers::<A, K>(k, p, true, shots, noise, u, &o, 0);
    }
    assert(x.len() == y.len());
    assert(a.tally.observable_ones@ =~= b.tally.observable_ones@);
}

/// With the same number of workers the results are equal entry for entry.
pub proof fn law_equal_workers_give_equal_results<A, K: ActiveKernels<A>>(
    k: &K,
    p: &SamplerPlan,
    q: &SamplerPlan,
    keep: bool,
    packed: bool,
    shots: int,
    noise: Seq<ChunkNoise>,
    a: SampleResult,
    b: SampleResult,
)
    requires
        p.wf(),
        q.wf(),
        same_work(p, q),
        p.options.threads == q.options.threads,
        sampled::<A, K>(k, p, keep, packed, shots, noise, a),
        sampled::<A, K>(k, q, keep, packed, shots, noise, b),
    ensures
        a.active_threads == b.active_threads,
        a.record_rows == b.record_rows,
        a.bit_packed == b.bit_packed,
        a.tally.counts == b.tally.counts,
        a.tally.measurements@ == b.tally.measurements@,
        a.tally.detectors@ == b.tally.detectors@,
        a.tally.observables@ == b.tally.observables@,
        a.tally.observable_ones@ == b.tally.observable_ones@,
        a.tally.exp_vals@ == b.tally.exp_vals@,
{
    let t = workers_for(p.options.threads as int, noise.len() as int);
    assert(p.outputs(keep, packed) == q.outputs(keep, packed));
    lemma_workers_same::<A, K>(k, p, q, keep, shots, noise, t, t);
    assert(a.tally.observable_ones@ =~= b.tally.observable_ones@);
}

} // verus!
