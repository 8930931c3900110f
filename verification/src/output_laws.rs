//! What the rows and counts of sampled shots hold, and what they are compared with.
use vstd::prelude::*;
use crate::driver::{fresh, ground};
use crate::executor::{dimension, lemma_dimension_positive};
use crate::kernels::ActiveKernels;
use crate::model::Shot;
use crate::outputs::{
    all_exps, groups_parity, law_packed_row_reads_back, list_parity, plane_rows, row_bytes, row_width,
    rows_bytes, tallied, OutputOptions, SampleTally,
};
use crate::planes::plane_bit;
use crate::presampled_expression::PresampledExpressionPlan;
use crate::program::FactoredInstructionProgram;
use crate::reference::{is_reference, quiet_run, ReferenceSample};
use crate::sampler::{
    groups_of, settled, workers_for, CircuitObservableInclude, SamplerOptions, SamplingInput,
    DEFAULT_SAMPLE_CHUNK_SHOTS,
};
use crate::schedule::holds;
use crate::step_laws::{odd_among, record_set};

verus! {

// ---------------------------------------------------------------------------
// Observables
// ---------------------------------------------------------------------------
/// The records that the first `n` groups list, one group after the other.
pub open spec fn listed(groups: Seq<Vec<i32>>, n: int) -> Seq<i32>
    decreases n,
{
    if n <= 0 {
        Seq::empty()
    } else {
        listed(groups, n - 1) + groups[n - 1]@
    }
}

proof fn lemma_list_parity<A>(shot: Shot<A>, list: Seq<i32>, n: int)
    requires
        0 <= n <= list.len(),
    ensures
        list_parity(shot.records, list, n) == odd_among(list.take(n), record_set(shot)),
    decreases n,
{
    reveal(Seq::filter);
    if n > 0 {
        lemma_list_parity(shot, list, n - 1);
        assert(list.take(n).drop_last() =~= list.take(n - 1));
        assert(list.take(n).last() == list[n - 1]);
    }
}

proof fn lemma_groups_parity<A>(shot: Shot<A>, groups: Seq<Vec<i32>>, n: int)
    requires
        0 <= n <= groups.len(),
    ensures
        groups_parity(shot.records, groups, n) == odd_among(listed(groups, n), record_set(shot)),
    decreases n,
{
    if n > 0 {
        lemma_groups_parity(shot, groups, n - 1);
        let list = groups[n - 1]@;
        lemma_list_parity(shot, list, list.len() as int);
        assert(list.take(list.len() as int) =~= list);
        Seq::filter_distributes_over_add(listed(groups, n - 1), list, record_set(shot));
    } else {
        reveal(Seq::filter);
    }
}

/// An observable of a shot is set exactly where an odd number of the records that its
/// groups list is set, turned round where the observable is expected to be set.
pub proof fn law_observables_count_their_records<'a, A>(o: &OutputOptions<'a>, shot: Shot<A>, i: int)
    requires
        0 <= i < o.observable_records@.len(),
    ensures
        ({
            let groups = o.observable_records@[i]@;
            let expected = i < o.expected_observables@.len() && o.expected_observables@[i] != 0;
            o.observable_bit(shot, i) == (odd_among(
                listed(groups, groups.len() as int),
                record_set(shot),
            ) != expected)
        }),
{
    let groups = o.observable_records@[i]@;
    lemma_groups_parity(shot, groups, groups.len() as int);
}

/// An observable that lists the groups of two others and expects nothing is the XOR of
/// the two.
pub proof fn law_observables_add_up(
    records: Seq<bool>,
    first: Seq<Vec<i32>>,
    second: Seq<Vec<i32>>,
    n: int,
)
    requires
        0 <= n <= second.len(),
    ensures
        groups_parity(records, first + second, first.len() + n) == (groups_parity(
            records,
            first,
            first.len() as int,
        ) != groups_parity(records, second, n)),
    decreases n,
{
    if n > 0 {
        law_observables_add_up(records, first, second, n - 1);
        assert((first + second)[first.len() + n - 1] == second[n - 1]);
    } else {
        lemma_groups_prefix(records, first, first + second, first.len() as int);
    }
}

proof fn lemma_groups_prefix(records: Seq<bool>, a: Seq<Vec<i32>>, b: Seq<Vec<i32>>, n: int)
    requires
        0 <= n <= a.len() <= b.len(),
        forall|g: int| 0 <= g < a.len() ==> #[trigger] a[g] == b[g],
    ensures
        groups_parity(records, a, n) == groups_parity(records, b, n),
    decreases n,
{
    if n > 0 {
        lemma_groups_prefix(records, a, b, n - 1);
        assert(a[n - 1] == b[n - 1]);
    }
}

// ---------------------------------------------------------------------------
// Rows
// ---------------------------------------------------------------------------
/// Row `s` of rows of one length stands at its place in the bytes: width times `s`.
pub proof fn law_rows_stand_at_their_place(
    rows: Seq<Seq<bool>>,
    columns: int,
    bit_packed: bool,
    s: int,
    j: int,
)
    requires
        0 <= columns,
        forall|i: int| 0 <= i < rows.len() ==> (#[trigger] rows[i]).len() == columns,
        0 <= s < rows.len(),
        0 <= j < row_width(columns, bit_packed),
    ensures
        0 <= s * row_width(columns, bit_packed) + j < rows_bytes(rows, bit_packed).len(),
        rows_bytes(rows, bit_packed)[s * row_width(columns, bit_packed) + j] == row_bytes(
            rows[s],
            bit_packed,
        )[j],
    decreases rows.len(),
{
    let width = row_width(columns, bit_packed);
    let rest = rows.drop_last();
    assert forall|i: int| 0 <= i < rest.len() implies (#[trigger] rest[i]).len() == columns by {
        assert(rest[i] == rows[i]);
    }
    crate::outputs::law_rows_fill_their_shape(rest, columns, bit_packed);
    crate::outputs::law_rows_fill_their_shape(rows, columns, bit_packed);
    let m = rest.len() as int;
    assert(rows[s].len() == columns);
    assert(0 <= s * width) by (nonlinear_arith)
        requires
            0 <= s,
            0 <= width,
    ;
    if s < m {
        law_rows_stand_at_their_place(rest, columns, bit_packed, s, j);
        assert(rest[s] == rows[s]);
        assert(rows_bytes(rest, bit_packed).len() <= rows_bytes(rows, bit_packed).len());
    } else {
        assert(s == m);
        assert(rows.last() == rows[s]);
        assert(rows.last().len() == columns);
    }
}

/// Whether byte or bit `c` of row `s` is set, for rows of `columns` bits.
pub open spec fn cell(bytes: Seq<u8>, columns: int, bit_packed: bool, s: int, c: int) -> bool {
    if bit_packed {
        (bytes[s * row_width(columns, true) + c / 8] >> ((c % 8) as u8)) & 1u8 == 1u8
    } else {
        bytes[s * columns + c] == 1u8
    }
}

/// Column `c` of row `s` reads back, packed or not.
pub proof fn law_cells_read_back(
    rows: Seq<Seq<bool>>,
    columns: int,
    bit_packed: bool,
    s: int,
    c: int,
)
    requires
        forall|i: int| 0 <= i < rows.len() ==> (#[trigger] rows[i]).len() == columns,
        0 <= s < rows.len(),
        0 <= c < columns,
    ensures
        cell(rows_bytes(rows, bit_packed), columns, bit_packed, s, c) == rows[s][c],
{
    assert(rows[s].len() == columns);
    if bit_packed {
        assert(c / 8 < row_width(columns, true));
        law_rows_stand_at_their_place(rows, columns, true, s, c / 8);
        law_packed_row_reads_back(rows[s], c);
    } else {
        law_rows_stand_at_their_place(rows, columns, false, s, c);
    }
}

/// A tally that starts empty and keeps records holds, for every shot in order, its
/// records, its detectors against the expected ones, and its observables.
pub proof fn law_a_tally_holds_every_shot<'a, A>(
    o: &OutputOptions<'a>,
    before: SampleTally,
    after: SampleTally,
    shots: Seq<Shot<A>>,
    nrecords: int,
    ndetectors: int,
    s: int,
)
    requires
        tallied(o, before, after, shots),
        o.keep_records,
        before.measurements@.len() == 0,
        before.detectors@.len() == 0,
        before.observables@.len() == 0,
        forall|i: int|
            0 <= i < shots.len() ==> (#[trigger] shots[i]).records.len() == nrecords
                && shots[i].detectors.len() == ndetectors,
        0 <= s < shots.len(),
    ensures
        forall|q: int|
            0 <= q < nrecords ==> #[trigger] cell(
                after.measurements@,
                nrecords,
                o.bit_packed,
                s,
                q,
            ) == shots[s].records[q],
        forall|d: int|
            0 <= d < ndetectors ==> #[trigger] cell(
                after.detectors@,
                ndetectors,
                o.bit_packed,
                s,
                d,
            ) == (shots[s].detectors[d] != (d < o.expected_detectors@.len()
                && o.expected_detectors@[d] != 0)),
        forall|i: int|
            0 <= i < o.observable_records@.len() ==> #[trigger] cell(
                after.observables@,
                o.observable_records@.len() as int,
                o.bit_packed,
                s,
                i,
            ) == o.observable_bit(shots[s], i),
{
    assert(shots[s].records.len() == nrecords);
    let records = o.measurement_rows(shots);
    let detectors = o.detector_rows(shots);
    let observables = o.observable_rows(shots);
    assert(after.measurements@ =~= rows_bytes(records, o.bit_packed));
    assert(after.detectors@ =~= rows_bytes(detectors, o.bit_packed));
    assert(after.observables@ =~= rows_bytes(observables, o.bit_packed));
    assert forall|i: int| 0 <= i < records.len() implies (#[trigger] records[i]).len() == nrecords by {
        assert(records[i] == shots[i].records);
    }
    assert forall|i: int| 0 <= i < detectors.len() implies (#[trigger] detectors[i]).len()
        == ndetectors by {
        assert(shots[i].detectors.len() == ndetectors);
    }
    assert forall|q: int| 0 <= q < nrecords implies #[trigger] cell(
        after.measurements@,
        nrecords,
        o.bit_packed,
        s,
        q,
    ) == shots[s].records[q] by {
        law_cells_read_back(records, nrecords, o.bit_packed, s, q);
    }
    assert forall|d: int| 0 <= d < ndetectors implies #[trigger] cell(
        after.detectors@,
        ndetectors,
        o.bit_packed,
        s,
        d,
    ) == (shots[s].detectors[d] != (d < o.expected_detectors@.len() && o.expected_detectors@[d]
        != 0)) by {
        law_cells_read_back(detectors, ndetectors, o.bit_packed, s, d);
        assert(detectors[s] == o.detector_row(shots[s]));
    }
    let count = o.observable_records@.len() as int;
    assert forall|i: int| 0 <= i < count implies #[trigger] cell(
        after.observables@,
        o.observable_records@.len() as int,
        o.bit_packed,
        s,
        i,
    ) == o.observable_bit(shots[s], i) by {
        law_cells_read_back(observables, count, o.bit_packed, s, i);
        assert(observables[s] == o.observable_row(shots[s]));
    }
}

/// The expectation values of shot `s` stand behind those of the shots before it.
pub proof fn law_expectations_stand_in_order<A>(shots: Seq<Shot<A>>, count: int, s: int, e: int)
    requires
        forall|i: int| 0 <= i < shots.len() ==> (#[trigger] shots[i]).exps.len() == count,
        0 <= s < shots.len(),
        0 <= e < count,
    ensures
        all_exps(shots).len() == shots.len() * count,
        0 <= s * count + e < all_exps(shots).len(),
        all_exps(shots)[s * count + e] == shots[s].exps[e],
    decreases shots.len(),
{
    lemma_exps_len(shots, count);
    let rest = shots.drop_last();
    let m = rest.len() as int;
    assert forall|i: int| 0 <= i < rest.len() implies (#[trigger] rest[i]).exps.len() == count by {
        assert(rest[i] == shots[i]);
    }
    lemma_exps_len(rest, count);
    assert(shots.last().exps.len() == count);
    assert((m + 1) * count == m * count + count) by (nonlinear_arith);
    assert(0 <= s * count) by (nonlinear_arith)
        requires
            0 <= s,
            0 <= count,
    ;
    if s < m {
        law_expectations_stand_in_order(rest, count, s, e);
        assert(rest[s] == shots[s]);
    } else {
        assert(shots.last() == shots[s]);
    }
}

proof fn lemma_exps_len<A>(shots: Seq<Shot<A>>, count: int)
    requires
        forall|i: int| 0 <= i < shots.len() ==> (#[trigger] shots[i]).exps.len() == count,
    ensures
        all_exps(shots).len() == shots.len() * count,
    decreases shots.len(),
{
    if shots.len() > 0 {
        let rest = shots.drop_last();
        assert forall|i: int| 0 <= i < rest.len() implies (#[trigger] rest[i]).exps.len() == count by {
            assert(rest[i] == shots[i]);
        }
        lemma_exps_len(rest, count);
        let m = rest.len() as int;
        assert(shots.last().exps.len() == count);
        assert((m + 1) * count == m * count + count) by (nonlinear_arith);
    } else {
        assert(0 * count == 0) by (nonlinear_arith);
    }
}

// ---------------------------------------------------------------------------
// Counts
// ---------------------------------------------------------------------------
proof fn lemma_ones_count<'a, A>(o: &OutputOptions<'a>, shots: Seq<Shot<A>>, i: int, n: int)
    requires
        0 <= n <= shots.len(),
    ensures
        o.ones(shots, i, n) == shots.take(n).filter(|shot: Shot<A>| o.observable_bit(shot, i)).len(),
    decreases n,
{
    reveal(Seq::filter);
    if n > 0 {
        lemma_ones_count(o, shots, i, n - 1);
        assert(shots.take(n).drop_last() =~= shots.take(n - 1));
        assert(shots.take(n).last() == shots[n - 1]);
    }
}

/// A tally counts every shot as accepted, for every observable the shots that have it
/// set, and as logical errors those that have the selected observable set.
pub proof fn law_a_tally_counts_its_shots<'a, A>(
    o: &OutputOptions<'a>,
    before: SampleTally,
    after: SampleTally,
    shots: Seq<Shot<A>>,
    i: int,
)
    requires
        tallied(o, before, after, shots),
        0 <= i < o.observable_records@.len(),
    ensures
        after.counts.accepted - before.counts.accepted == shots.len(),
        after.observable_ones@[i] - before.observable_ones@[i] == shots.filter(
            |shot: Shot<A>| o.observable_bit(shot, i),
        ).len(),
        i == o.selected_observable ==> after.counts.logical_errors - before.counts.logical_errors
            == shots.filter(|shot: Shot<A>| o.observable_bit(shot, i)).len(),
        o.selected_observable >= o.observable_records@.len() ==> after.counts.logical_errors
            == before.counts.logical_errors,
{
    lemma_ones_count(o, shots, i, shots.len() as int);
    assert(shots.take(shots.len() as int) =~= shots);
}

// ---------------------------------------------------------------------------
// The reference
// ---------------------------------------------------------------------------
/// Compared with its own reference sample, the noiseless shot has no detector and no
/// observable set.
pub proof fn law_the_reference_is_silent_about_itself<'a, A, K: ActiveKernels<A>>(
    k: &K,
    program: &FactoredInstructionProgram,
    plan: PresampledExpressionPlan,
    o: &OutputOptions<'a>,
    sample: ReferenceSample,
    i: int,
)
    requires
        is_reference(k, program, o.observable_records@, plan, sample),
        o.expected_detectors@ == sample.detectors@,
        o.expected_observables@ == sample.observables@,
    ensures
        ({
            let shot = quiet_run(k, program, plan)->Ok_0.shots[0];
            &&& quiet_run(k, program, plan) is Ok
            &&& 0 <= i < program.ndetectors && i < shot.detectors.len() ==> !o.detector_row(shot)[i]
            &&& 0 <= i < o.observable_records@.len() ==> !o.observable_bit(shot, i)
        }),
{
}

// ---------------------------------------------------------------------------
// The start
// ---------------------------------------------------------------------------
/// Every shot starts alike: in the first basis state of each part that is switched on,
/// with nothing assigned, recorded or read; the shots differ in the column of the noise
/// that they read, which follows the order of the shots.
pub proof fn law_shots_start_in_the_first_state<A>(
    program: &FactoredInstructionProgram,
    shot_major: bool,
    stored: bool,
    rng: u64,
    shots: int,
    first: int,
    zero: A,
    one: A,
    s: int,
)
    requires
        0 <= s < shots,
    ensures
        ({
            let b = fresh(program, shot_major, stored, rng, shots, first, zero, one);
            let shot = b.shots[s];
            &&& b.shots.len() == shots
            &&& shot.sample == first + s
            &&& shot.values == Map::<i32, bool>::empty()
            &&& !shot.fired
            &&& shot.records.len() == program.nrecords
            &&& forall|q: int| 0 <= q < program.nrecords ==> !#[trigger] shot.records[q]
            &&& forall|d: int| 0 <= d < shot.detectors.len() ==> !#[trigger] shot.detectors[d]
            &&& forall|e: int| 0 <= e < shot.exps.len() ==> #[trigger] shot.exps[e] == 0
            &&& shot.lanes.len() == b.parts.len()
            &&& forall|j: int|
                0 <= j < b.parts.len() && b.parts[j].active ==> (#[trigger] shot.lanes[j]).len()
                    == dimension(b.parts[j].k) && shot.lanes[j][0] == one && forall|x: int|
                    0 < x < shot.lanes[j].len() ==> #[trigger] shot.lanes[j][x] == zero
        }),
{
    let b = fresh(program, shot_major, stored, rng, shots, first, zero, one);
    assert forall|j: int| 0 <= j < b.parts.len() && b.parts[j].active implies (
    #[trigger] b.shots[s].lanes[j]).len() == dimension(b.parts[j].k) && b.shots[s].lanes[j][0]
        == one && forall|x: int|
        0 < x < b.shots[s].lanes[j].len() ==> #[trigger] b.shots[s].lanes[j][x] == zero by {
        lemma_dimension_positive(b.parts[j].k);
        assert(b.shots[s].lanes[j] == ground(dimension(b.parts[j].k), zero, one));
    }
}

/// The result of a call holds, for every shot that is left and in order, its records, its
/// detectors against the expected ones, and its observables.
pub proof fn law_a_result_holds_every_shot<'a, A>(
    o: &OutputOptions<'a>,
    tally: SampleTally,
    shots: Seq<Shot<A>>,
    nrecords: int,
    ndetectors: int,
    s: int,
    c: int,
)
    requires
        holds(o, tally, shots),
        o.keep_records,
        forall|i: int|
            0 <= i < shots.len() ==> (#[trigger] shots[i]).records.len() == nrecords
                && shots[i].detectors.len() == ndetectors,
        0 <= s < shots.len(),
        0 <= c,
    ensures
        c < nrecords ==> cell(tally.measurements@, nrecords, o.bit_packed, s, c)
            == shots[s].records[c],
        c < ndetectors ==> cell(tally.detectors@, ndetectors, o.bit_packed, s, c) == (
        shots[s].detectors[c] != (c < o.expected_detectors@.len() && o.expected_detectors@[c] != 0)),
        c < o.observable_records@.len() ==> cell(
            tally.observables@,
            o.observable_records@.len() as int,
            o.bit_packed,
            s,
            c,
        ) == o.observable_bit(shots[s], c),
{
    let records = o.measurement_rows(shots);
    let detectors = o.detector_rows(shots);
    let observables = o.observable_rows(shots);
    assert forall|i: int| 0 <= i < records.len() implies (#[trigger] records[i]).len() == nrecords by {
        assert(records[i] == shots[i].records);
    }
    assert forall|i: int| 0 <= i < detectors.len() implies (#[trigger] detectors[i]).len()
        == ndetectors by {
        assert(shots[i].detectors.len() == ndetectors);
    }
    if c < nrecords {
        law_cells_read_back(records, nrecords, o.bit_packed, s, c);
    }
    if c < ndetectors {
        law_cells_read_back(detectors, ndetectors, o.bit_packed, s, c);
        assert(detectors[s] == o.detector_row(shots[s]));
        assert(shots[s].detectors.len() == ndetectors);
    }
    let count = o.observable_records@.len() as int;
    if c < count {
        law_cells_read_back(observables, count, o.bit_packed, s, c);
        assert(observables[s] == o.observable_row(shots[s]));
    }
}

/// The result of a call counts the shots that are left, for every observable those that
/// have it set, and as logical errors those that have the selected one set.
pub proof fn law_a_result_counts_its_shots<'a, A>(
    o: &OutputOptions<'a>,
    tally: SampleTally,
    shots: Seq<Shot<A>>,
    i: int,
)
    requires
        holds(o, tally, shots),
        0 <= i < o.observable_records@.len(),
    ensures
        tally.counts.accepted == shots.len(),
        tally.observable_ones@[i] == shots.filter(
            |shot: Shot<A>| o.observable_bit(shot, i),
        ).len(),
        i == o.selected_observable ==> tally.counts.logical_errors == tally.observable_ones@[i],
{
    lemma_ones_count(o, shots, i, shots.len() as int);
    assert(shots.take(shots.len() as int) =~= shots);
}

/// The rows of bit-planes hold, for every shot, its bit of every plane, turned round where
/// the column is expected to be set.
pub proof fn law_plane_rows_read_back(
    columns: Seq<u64>,
    stride: int,
    expected: Seq<u8>,
    count: int,
    rows: int,
    bit_packed: bool,
    s: int,
    c: int,
)
    requires
        0 <= s < rows,
        0 <= c < count,
    ensures
        cell(
            rows_bytes(plane_rows(columns, stride, expected, count, rows), bit_packed),
            count,
            bit_packed,
            s,
            c,
        ) == (plane_bit(columns, stride, c, s) != (c < expected.len() && expected[c] != 0)),
{
    let all = plane_rows(columns, stride, expected, count, rows);
    assert forall|i: int| 0 <= i < all.len() implies (#[trigger] all[i]).len() == count by {}
    law_cells_read_back(all, count, bit_packed, s, c);
}

// ---------------------------------------------------------------------------
// What is asked for
// ---------------------------------------------------------------------------
/// An observable is made of the records of all its declarations, in their order, and of
/// no other.
pub proof fn law_observables_take_their_declarations(
    observables: Seq<CircuitObservableInclude>,
    observable: int,
    n: int,
)
    requires
        0 <= n <= observables.len(),
    ensures
        groups_of(observables, observable, n) == observables.take(n).filter(
            |d: CircuitObservableInclude| d.index == observable,
        ).map_values(|d: CircuitObservableInclude| d.records@),
    decreases n,
{
    reveal(Seq::filter);
    let p = |d: CircuitObservableInclude| d.index == observable;
    let f = |d: CircuitObservableInclude| d.records@;
    if n > 0 {
        law_observables_take_their_declarations(observables, observable, n - 1);
        assert(observables.take(n).drop_last() =~= observables.take(n - 1));
        assert(observables.take(n).last() == observables[n - 1]);
        let before = observables.take(n - 1).filter(p);
        assert(before.push(observables[n - 1]).map_values(f) =~= before.map_values(f).push(
            observables[n - 1].records@,
        ));
    } else {
        assert(observables.take(0).filter(p).map_values(f) =~= Seq::empty());
    }
}

/// Sizes that are given are kept. Without one, a chunk holds the default number of shots
/// or a whole batch, whichever is more, and one worker runs; never more workers run than
/// there are chunks or than were asked for. Without normalization the expected bits are
/// those given; with it, the noiseless shot has no detector and no observable set against
/// them.
pub proof fn law_settled_options_keep_what_was_given<'a, A, K: ActiveKernels<A>>(
    k: &K,
    input: SamplingInput,
    given: SamplerOptions,
    options: SamplerOptions,
    nchunks: int,
    o: &OutputOptions<'a>,
    i: int,
)
    requires
        settled::<A, K>(k, input, given, options),
        0 <= nchunks,
        o.observable_records@ == input.observable_records@,
        o.expected_detectors@ == options.expected_detectors@,
        o.expected_observables@ == options.expected_observables@,
    ensures
        given.batch_size > 0 ==> options.batch_size == given.batch_size,
        given.sample_chunk_shots > 0 ==> options.sample_chunk_shots == given.sample_chunk_shots,
        given.sample_chunk_shots == 0 ==> {
            &&& options.sample_chunk_shots >= DEFAULT_SAMPLE_CHUNK_SHOTS
            &&& options.sample_chunk_shots >= options.batch_size
            &&& options.sample_chunk_shots == DEFAULT_SAMPLE_CHUNK_SHOTS || options.sample_chunk_shots
                == options.batch_size
        },
        given.threads > 0 ==> options.threads == given.threads,
        given.threads == 0 ==> options.threads == 1,
        workers_for(options.threads as int, nchunks) <= options.threads,
        workers_for(options.threads as int, nchunks) <= nchunks,
        workers_for(options.threads as int, nchunks) == options.threads || workers_for(
            options.threads as int,
            nchunks,
        ) == nchunks,
        !given.normalize_syndromes ==> options.expected_detectors == given.expected_detectors
            && options.expected_observables == given.expected_observables,
        given.normalize_syndromes && (input.program.ndetectors > 0
            || input.observable_records@.len() > 0) ==> exists|plan: PresampledExpressionPlan|
            quiet_run::<A, K>(k, &input.program, plan) is Ok && ({
                let shot = (#[trigger] quiet_run::<A, K>(k, &input.program, plan))->Ok_0.shots[0];
                &&& 0 <= i < input.program.ndetectors && i < shot.detectors.len() ==> !o.detector_row(
                    shot,
                )[i]
                &&& 0 <= i < o.observable_records@.len() ==> !o.observable_bit(shot, i)
            }),
{
    if given.normalize_syndromes && (input.program.ndetectors > 0
        || input.observable_records@.len() > 0) {
        let sample = ReferenceSample {
            detectors: options.expected_detectors,
            observables: options.expected_observables,
        };
        let plan = choose|plan: PresampledExpressionPlan| #[trigger]
            is_reference::<A, K>(k, &input.program, input.observable_records@, plan, sample);
        law_the_reference_is_silent_about_itself(k, &input.program, plan, o, sample, i);
        assert(quiet_run::<A, K>(k, &input.program, plan) is Ok);
    }
}

} // verus!
