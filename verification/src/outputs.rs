//! Turning the bit-planes of an executed block into rows and counts.
use vstd::prelude::*;
use crate::bits::row_bit;
use crate::errors::{Result, TicitError};
use crate::executor::{filled_list, BatchFactoredExecutorState};
use crate::model::Shot;
use crate::planes::{lemma_plane_index, plane_bit, plane_offset};
use crate::symbols::xor_plane;

verus! {

broadcast use crate::bits::group_word_bits;

/// Aggregate outcomes of a sampling call. `shots == discarded + accepted`;
/// `logical_errors` counts the accepted shots whose selected observable is one.
#[derive(Clone, Copy, Debug, PartialEq, Eq, Structural)]
pub struct SampleCounts {
    /// Attempted shots.
    pub shots: u64,
    /// Shots that postselection discarded.
    pub discarded: u64,
    /// Shots that are left.
    pub accepted: u64,
    /// Accepted shots whose selected observable is one.
    pub logical_errors: u64,
}

impl Default for SampleCounts {
    fn default() -> (r: Self)
        ensures
            r == (SampleCounts { shots: 0, discarded: 0, accepted: 0, logical_errors: 0 }),
    {
        SampleCounts { shots: 0, discarded: 0, accepted: 0, logical_errors: 0 }
    }
}

// ---------------------------------------------------------------------------
// Rows
// ---------------------------------------------------------------------------
/// Bytes of a row of bits.
pub open spec fn row_width(columns: int, bit_packed: bool) -> int {
    if bit_packed {
        (columns + 7) / 8
    } else {
        columns
    }
}

/// How many bytes a row of `columns` bits takes.
pub fn output_columns(columns: usize, bit_packed: bool) -> (r: usize)
    ensures
        r == row_width(columns as int, bit_packed),
{
    if bit_packed {
        if columns % 8 == 0 {
            columns / 8
        } else {
            columns / 8 + 1
        }
    } else {
        columns
    }
}

/// The lowest `n` bits of byte `b` of a packed row: the bit of column `8 b + j` is
/// bit `j`.
pub open spec fn byte_below(bits: Seq<bool>, b: int, n: int) -> u8
    decreases n,
{
    if n <= 0 {
        0
    } else if 8 * b + n - 1 < bits.len() && bits[8 * b + n - 1] {
        byte_below(bits, b, n - 1) | (1u8 << ((n - 1) as u8))
    } else {
        byte_below(bits, b, n - 1)
    }
}

/// The bytes of a row: one per bit, or eight bits to a byte, lowest first.
pub open spec fn row_bytes(bits: Seq<bool>, bit_packed: bool) -> Seq<u8> {
    if bit_packed {
        Seq::new(
            row_width(bits.len() as int, true) as nat,
            |b: int| byte_below(bits, b, 8),
        )
    } else {
        Seq::new(
            bits.len(),
            |i: int|
                if bits[i] {
                    1u8
                } else {
                    0u8
                },
        )
    }
}

/// The bytes of rows, one row after the other.
pub open spec fn rows_bytes(rows: Seq<Seq<bool>>, bit_packed: bool) -> Seq<u8>
    decreases rows.len(),
{
    if rows.len() == 0 {
        Seq::empty()
    } else {
        rows_bytes(rows.drop_last(), bit_packed) + row_bytes(rows.last(), bit_packed)
    }
}

proof fn lemma_byte_bit(bits: Seq<bool>, b: int, n: int, j: u8)
    requires
        0 <= n <= 8,
        j < 8,
    ensures
        (byte_below(bits, b, n) >> j) & 1u8 == if j < n && 8 * b + j < bits.len() && bits[8 * b + j] {
            1u8
        } else {
            0u8
        },
    decreases n,
{
    if n > 0 {
        lemma_byte_bit(bits, b, n - 1, j);
        let rest = byte_below(bits, b, n - 1);
        let k = (n - 1) as u8;
        assert(((rest | (1u8 << k)) >> j) & 1u8 == if j == k {
            1u8
        } else {
            (rest >> j) & 1u8
        }) by (bit_vector)
            requires
                j < 8,
                k < 8,
        ;
    } else {
        assert((0u8 >> j) & 1u8 == 0u8) by (bit_vector);
    }
}

/// Column `c` of a packed row is bit `c % 8`, counted from the lowest, of byte
/// `c / 8`; the bits past the last column are clear.
pub proof fn law_packed_row_reads_back(bits: Seq<bool>, c: int)
    requires
        0 <= c < 8 * row_width(bits.len() as int, true),
    ensures
        (row_bytes(bits, true)[c / 8] >> ((c % 8) as u8)) & 1u8 == if c < bits.len() && bits[c] {
            1u8
        } else {
            0u8
        },
{
    lemma_byte_bit(bits, c / 8, 8, (c % 8) as u8);
}

/// Rows of one length fill a rectangle of bytes: `rows × row width`.
pub proof fn law_rows_fill_their_shape(rows: Seq<Seq<bool>>, columns: int, bit_packed: bool)
    requires
        0 <= columns,
        forall|i: int| 0 <= i < rows.len() ==> (#[trigger] rows[i]).len() == columns,
    ensures
        rows_bytes(rows, bit_packed).len() == rows.len() * row_width(columns, bit_packed),
    decreases rows.len(),
{
    let width = row_width(columns, bit_packed);
    if rows.len() > 0 {
        let rest = rows.drop_last();
        assert forall|i: int| 0 <= i < rest.len() implies (#[trigger] rest[i]).len() == columns by {
            assert(rest[i] == rows[i]);
        }
        law_rows_fill_their_shape(rest, columns, bit_packed);
        assert(rows.last().len() == columns);
        let n = rest.len() as int;
        assert((n + 1) * width == n * width + width) by (nonlinear_arith);
    } else {
        assert(0 * width == 0) by (nonlinear_arith);
    }
}

/// The bytes of two lists of rows stand one after the other.
pub proof fn lemma_rows_bytes_concat(a: Seq<Seq<bool>>, b: Seq<Seq<bool>>, bit_packed: bool)
    ensures
        rows_bytes(a + b, bit_packed) == rows_bytes(a, bit_packed) + rows_bytes(b, bit_packed),
    decreases b.len(),
{
    if b.len() == 0 {
        assert(a + b =~= a);
        assert(rows_bytes(a, bit_packed) + Seq::<u8>::empty() =~= rows_bytes(a, bit_packed));
    } else {
        lemma_rows_bytes_concat(a, b.drop_last(), bit_packed);
        assert((a + b).drop_last() =~= a + b.drop_last());
        assert((a + b).last() == b.last());
        assert(rows_bytes(a, bit_packed) + (rows_bytes(b.drop_last(), bit_packed) + row_bytes(
            b.last(),
            bit_packed,
        )) =~= rows_bytes(a, bit_packed) + rows_bytes(b.drop_last(), bit_packed) + row_bytes(
            b.last(),
            bit_packed,
        ));
    }
}

/// Whether a column is expected to be set.
pub open spec fn flagged(expected: Seq<u8>, column: int) -> bool {
    0 <= column < expected.len() && expected[column] != 0
}

/// The bits of one shot over the planes, XORed with the expected ones.
pub open spec fn plane_row(
    columns: Seq<u64>,
    stride: int,
    expected: Seq<u8>,
    count: int,
    shot: int,
) -> Seq<bool> {
    Seq::new(count as nat, |c: int| plane_bit(columns, stride, c, shot) != flagged(expected, c))
}

pub open spec fn plane_rows(
    columns: Seq<u64>,
    stride: int,
    expected: Seq<u8>,
    count: int,
    rows: int,
) -> Seq<Seq<bool>> {
    Seq::new(rows as nat, |s: int| plane_row(columns, stride, expected, count, s))
}

/// One bit of a row.
fn row_bit_at(
    columns: &[u64],
    expected: &[u8],
    stride_words: usize,
    column: usize,
    shot: usize,
    Ghost(count): Ghost<int>,
) -> (r: bool)
    requires
        column < count,
        count * stride_words <= columns@.len(),
        shot < 64 * stride_words,
    ensures
        r == (plane_bit(columns@, stride_words as int, column as int, shot as int) != flagged(
            expected@,
            column as int,
        )),
{
    let word: usize = shot / 64;
    let len: usize = columns.len();
    proof {
        lemma_plane_index(stride_words as int, count, column as int, word as int);
    }
    let at: usize = plane_offset(stride_words, column, word);
    let bit: bool = (columns[at] >> ((shot % 64) as u64)) & 1 == 1;
    let flip: bool = column < expected.len() && expected[column] != 0;
    bit != flip
}

/// Appends one row.
fn append_bit_row(
    out: &mut Vec<u8>,
    columns: &[u64],
    expected: &[u8],
    column_count: usize,
    stride_words: usize,
    shot: usize,
    bit_packed: bool,
)
    requires
        column_count * stride_words <= columns@.len(),
        shot < 64 * stride_words,
    ensures
        final(out)@ == old(out)@ + row_bytes(
            plane_row(
                columns@,
                stride_words as int,
                expected@,
                column_count as int,
                shot as int,
            ),
            bit_packed,
        ),
{
    let ghost start = out@;
    let ghost bits = plane_row(
        columns@,
        stride_words as int,
        expected@,
        column_count as int,
        shot as int,
    );
    if bit_packed {
        let width: usize = output_columns(column_count, true);
        let ghost want = row_bytes(bits, true);
        let mut b: usize = 0;
        while b < width
            invariant
                b <= width,
                width == row_width(column_count as int, true),
                bits == plane_row(
                    columns@,
                    stride_words as int,
                    expected@,
                    column_count as int,
                    shot as int,
                ),
                column_count * stride_words <= columns@.len(),
                shot < 64 * stride_words,
                want == row_bytes(bits, true),
                want.len() == width,
                out@ == start + want.take(b as int),
            decreases width - b,
        {
            let mut byte: u8 = 0;
            let mut j: u8 = 0;
            while j < 8
                invariant
                    j <= 8,
                    b < width,
                    width == row_width(column_count as int, true),
                    bits == plane_row(
                        columns@,
                        stride_words as int,
                        expected@,
                        column_count as int,
                        shot as int,
                    ),
                    column_count * stride_words <= columns@.len(),
                    shot < 64 * stride_words,
                    byte == byte_below(bits, b as int, j as int),
                decreases 8 - j,
            {
                let within: usize = j as usize;
                if within < column_count - 8 * b {
                    let column: usize = 8 * b + within;
                    if row_bit_at(
                        columns,
                        expected,
                        stride_words,
                        column,
                        shot,
                        Ghost(column_count as int),
                    ) {
                        byte = byte | (1u8 << j);
                    }
                }
                j += 1;
            }
            assert(want[b as int] == byte);
            assert(want.take(b + 1) =~= want.take(b as int).push(byte));
            out.push(byte);
            assert(out@ =~= start + want.take(b + 1));
            b += 1;
        }
        assert(want.take(b as int) =~= want);
    } else {
        let ghost want = row_bytes(bits, false);
        let mut column: usize = 0;
        while column < column_count
            invariant
                column <= column_count,
                bits == plane_row(
                    columns@,
                    stride_words as int,
                    expected@,
                    column_count as int,
                    shot as int,
                ),
                column_count * stride_words <= columns@.len(),
                shot < 64 * stride_words,
                want == row_bytes(bits, false),
                want.len() == column_count,
                out@ == start + want.take(column as int),
            decreases column_count - column,
        {
            let bit: bool = row_bit_at(
                columns,
                expected,
                stride_words,
                column,
                shot,
                Ghost(column_count as int),
            );
            let byte: u8 = if bit {
                1
            } else {
                0
            };
            assert(want[column as int] == byte);
            assert(want.take(column + 1) =~= want.take(column as int).push(byte));
            out.push(byte);
            assert(out@ =~= start + want.take(column + 1));
            column += 1;
        }
        assert(want.take(column as int) =~= want);
    }
}

/// Appends the rows of the first shots. The row of a shot holds its bit of every
/// plane.
pub fn append_bit_rows(
    out: &mut Vec<u8>,
    columns: &[u64],
    expected: &[u8],
    column_count: usize,
    stride_words: usize,
    rows: usize,
    bit_packed: bool,
)
    requires
        column_count * stride_words <= columns@.len(),
        rows <= 64 * stride_words,
    ensures
        final(out)@ == old(out)@ + rows_bytes(
            plane_rows(
                columns@,
                stride_words as int,
                expected@,
                column_count as int,
                rows as int,
            ),
            bit_packed,
        ),
{
    let ghost start = out@;
    let ghost all = plane_rows(
        columns@,
        stride_words as int,
        expected@,
        column_count as int,
        rows as int,
    );
    let mut shot: usize = 0;
    assert(all.take(0) =~= Seq::<Seq<bool>>::empty());
    assert(start + Seq::<u8>::empty() =~= start);
    while shot < rows
        invariant
            shot <= rows,
            column_count * stride_words <= columns@.len(),
            rows <= 64 * stride_words,
            all == plane_rows(
                columns@,
                stride_words as int,
                expected@,
                column_count as int,
                rows as int,
            ),
            out@ == start + rows_bytes(all.take(shot as int), bit_packed),
        decreases rows - shot,
    {
        let ghost before = out@;
        append_bit_row(out, columns, expected, column_count, stride_words, shot, bit_packed);
        proof {
            let taken = all.take(shot + 1);
            assert(taken.drop_last() =~= all.take(shot as int));
            assert(taken.last() == plane_row(
                columns@,
                stride_words as int,
                expected@,
                column_count as int,
                shot as int,
            ));
            assert(out@ =~= start + rows_bytes(taken, bit_packed));
        }
        shot += 1;
    }
    assert(all.take(shot as int) =~= all);
}

// ---------------------------------------------------------------------------
// Observables
// ---------------------------------------------------------------------------
/// The XOR of the first `n` listed records.
pub open spec fn list_parity(records: Seq<bool>, list: Seq<i32>, n: int) -> bool
    decreases n,
{
    if n <= 0 {
        false
    } else {
        list_parity(records, list, n - 1) != records[list[n - 1] - 1]
    }
}

/// The XOR of the records of the first `n` groups.
pub open spec fn groups_parity(records: Seq<bool>, groups: Seq<Vec<i32>>, n: int) -> bool
    decreases n,
{
    if n <= 0 {
        false
    } else {
        groups_parity(records, groups, n - 1) != list_parity(
            records,
            groups[n - 1]@,
            groups[n - 1]@.len() as int,
        )
    }
}

/// Every record of the list exists.
pub open spec fn list_exists(list: Seq<i32>, nrecords: int) -> bool {
    forall|t: int| 0 <= t < list.len() ==> 0 < #[trigger] list[t] <= nrecords
}

/// Every record of the groups exists.
pub open spec fn groups_exist(groups: Seq<Vec<i32>>, nrecords: int) -> bool {
    forall|g: int| 0 <= g < groups.len() ==> list_exists((#[trigger] groups[g])@, nrecords)
}

/// Every record of the observables exists.
pub open spec fn observables_exist(observables: Seq<Vec<Vec<i32>>>, nrecords: int) -> bool {
    forall|o: int| 0 <= o < observables.len() ==> groups_exist((#[trigger] observables[o])@, nrecords)
}

/// XORs the records of a list into a row. False where a record does not exist.
fn xor_records<A: Copy>(
    row: &mut Vec<u64>,
    runtime: &BatchFactoredExecutorState<A>,
    records: &Vec<i32>,
) -> (r: bool)
    requires
        runtime.planes_wf(),
        old(row)@.len() == runtime.batch_words,
    ensures
        final(row)@.len() == old(row)@.len(),
        r == list_exists(records@, runtime.nrecords as int),
        r ==> forall|s: int|
            0 <= s < runtime.active_shots ==> #[trigger] row_bit(final(row)@, s) == (row_bit(
                old(row)@,
                s,
            ) != list_parity(runtime.shot(s, s).records, records@, records@.len() as int)),
{
    let ghost start = row@;
    let mut t: usize = 0;
    while t < records.len()
        invariant
            t <= records@.len(),
            runtime.planes_wf(),
            start == old(row)@,
            row@.len() == start.len(),
            row@.len() == runtime.batch_words,
            forall|u: int| 0 <= u < t ==> 0 < #[trigger] records@[u] <= runtime.nrecords,
            forall|s: int|
                0 <= s < runtime.active_shots ==> #[trigger] row_bit(row@, s) == (row_bit(start, s)
                    != list_parity(runtime.shot(s, s).records, records@, t as int)),
        decreases records@.len() - t,
    {
        let record: i32 = records[t];
        if record <= 0 || record as usize > runtime.nrecords {
            assert(!(0 < records@[t as int] <= runtime.nrecords));
            return false;
        }
        let ghost before = row@;
        xor_plane(
            row,
            &runtime.measurement_words,
            runtime,
            (record - 1) as usize,
            Ghost(runtime.nrecords as int),
        );
        proof {
            assert forall|s: int| 0 <= s < runtime.active_shots implies #[trigger] row_bit(row@, s) == (
            row_bit(start, s) != list_parity(runtime.shot(s, s).records, records@, t + 1)) by {
                assert(row_bit(before, s) == (row_bit(start, s) != list_parity(
                    runtime.shot(s, s).records,
                    records@,
                    t as int,
                )));
                assert(runtime.shot(s, s).records[record - 1] == runtime.record_bit(
                    record as int,
                    s,
                ));
            }
        }
        t += 1;
    }
    true
}

/// XORs the records of every group into a row. False where a record does not exist.
fn xor_groups<A: Copy>(
    row: &mut Vec<u64>,
    runtime: &BatchFactoredExecutorState<A>,
    groups: &Vec<Vec<i32>>,
) -> (r: bool)
    requires
        runtime.planes_wf(),
        old(row)@.len() == runtime.batch_words,
        forall|s: int| 0 <= s < runtime.active_shots ==> !#[trigger] row_bit(old(row)@, s),
    ensures
        final(row)@.len() == old(row)@.len(),
        r == groups_exist(groups@, runtime.nrecords as int),
        r ==> forall|s: int|
            0 <= s < runtime.active_shots ==> #[trigger] row_bit(final(row)@, s) == groups_parity(
                runtime.shot(s, s).records,
                groups@,
                groups@.len() as int,
            ),
{
    let mut g: usize = 0;
    while g < groups.len()
        invariant
            g <= groups@.len(),
            runtime.planes_wf(),
            row@.len() == old(row)@.len(),
            row@.len() == runtime.batch_words,
            forall|u: int|
                0 <= u < g ==> list_exists((#[trigger] groups@[u])@, runtime.nrecords as int),
            forall|s: int|
                0 <= s < runtime.active_shots ==> #[trigger] row_bit(row@, s) == groups_parity(
                    runtime.shot(s, s).records,
                    groups@,
                    g as int,
                ),
        decreases groups@.len() - g,
    {
        let ghost before = row@;
        if !xor_records(row, runtime, &groups[g]) {
            assert(!list_exists(groups@[g as int]@, runtime.nrecords as int));
            return false;
        }
        proof {
            assert forall|s: int| 0 <= s < runtime.active_shots implies (#[trigger] row_bit(row@, s))
                == groups_parity(runtime.shot(s, s).records, groups@, g + 1) by {
                assert(row_bit(before, s) == groups_parity(
                    runtime.shot(s, s).records,
                    groups@,
                    g as int,
                ));
            }
        }
        g += 1;
    }
    true
}

/// Fills the planes of the observables: each is the XOR of its records.
#[verifier::rlimit(30)]
pub fn fill_observable_words<A: Copy>(
    out: &mut Vec<u64>,
    runtime: &BatchFactoredExecutorState<A>,
    observable_records: &[Vec<Vec<i32>>],
) -> (r: Result<()>)
    requires
        runtime.planes_wf(),
        observable_records@.len() * runtime.batch_words <= usize::MAX,
    ensures
        match r {
            Ok(_) => {
                &&& observables_exist(observable_records@, runtime.nrecords as int)
                &&& final(out)@.len() == observable_records@.len() * runtime.batch_words
                &&& forall|o: int, s: int|
                    0 <= o < observable_records@.len() && 0 <= s < runtime.active_shots
                        ==> #[trigger] plane_bit(
                        final(out)@,
                        runtime.batch_words as int,
                        o,
                        s,
                    ) == groups_parity(
                        runtime.shot(s, s).records,
                        observable_records@[o]@,
                        observable_records@[o]@.len() as int,
                    )
            },
            Err(e) => {
                &&& !observables_exist(observable_records@, runtime.nrecords as int)
                &&& e@ == "observable references an out-of-range measurement record"@
            },
        },
{
    let stride: usize = runtime.batch_words;
    let ghost st = stride as int;
    out.clear();
    let mut o: usize = 0;
    assert(0 * st == 0);
    while o < observable_records.len()
        invariant
            o <= observable_records@.len(),
            runtime.planes_wf(),
            stride == runtime.batch_words,
            st == stride,
            observable_records@.len() * runtime.batch_words <= usize::MAX,
            out@.len() == o * st,
            forall|p: int|
                0 <= p < o ==> groups_exist(
                    (#[trigger] observable_records@[p])@,
                    runtime.nrecords as int,
                ),
            forall|p: int, s: int|
                0 <= p < o && 0 <= s < runtime.active_shots ==> #[trigger] plane_bit(
                    out@,
                    st,
                    p,
                    s,
                ) == groups_parity(
                    runtime.shot(s, s).records,
                    observable_records@[p]@,
                    observable_records@[p]@.len() as int,
                ),
        decreases observable_records@.len() - o,
    {
        let mut row: Vec<u64> = filled_list(stride, 0u64);
        proof {
            assert forall|s: int| 0 <= s < runtime.active_shots implies !#[trigger] row_bit(row@, s) by {
                crate::executor::lemma_clear_row(row@, s);
            }
        }
        if !xor_groups(&mut row, runtime, &observable_records[o]) {
            assert(!groups_exist(observable_records@[o as int]@, runtime.nrecords as int));
            return Err(
                TicitError::new("observable references an out-of-range measurement record"),
            );
        }
        let ghost before = out@;
        let ghost tail = row@;
        out.append(&mut row);
        proof {
            assert(out@ =~= before + tail);
            assert((o + 1) * st == o * st + st) by (nonlinear_arith);
            assert forall|p: int, s: int|
                0 <= p < o + 1 && 0 <= s < runtime.active_shots implies #[trigger] plane_bit(
                out@,
                st,
                p,
                s,
            ) == groups_parity(
                runtime.shot(s, s).records,
                observable_records@[p]@,
                observable_records@[p]@.len() as int,
            ) by {
                if p < o {
                    lemma_plane_index(st, o as int, p, s / 64);
                    assert(plane_bit(before, st, p, s) == plane_bit(out@, st, p, s));
                } else {
                    assert(out@[p * st + s / 64] == tail[s / 64]);
                    assert(plane_bit(out@, st, p, s) == row_bit(tail, s));
                }
            }
        }
        o += 1;
    }
    Ok(())
}

// ---------------------------------------------------------------------------
// Tallies
// ---------------------------------------------------------------------------
/// What is kept of the shots, and how.
#[derive(Clone, Copy, Debug)]
pub struct OutputOptions<'a> {
    /// For every observable, the groups of records that it is the XOR of.
    pub observable_records: &'a Vec<Vec<Vec<i32>>>,
    /// The detector bits without noise; none leaves the detectors raw.
    pub expected_detectors: &'a Vec<u8>,
    /// The observable bits without noise; none leaves the observables raw.
    pub expected_observables: &'a Vec<u8>,
    /// The observable whose ones are logical errors.
    pub selected_observable: usize,
    /// Whether rows are kept, or counts alone.
    pub keep_records: bool,
    /// Whether rows hold eight bits to a byte.
    pub bit_packed: bool,
}

/// The rows and counts of the shots so far.
#[derive(Clone, Debug)]
pub struct SampleTally {
    pub counts: SampleCounts,
    /// Row-major measurement bits.
    pub measurements: Vec<u8>,
    /// Row-major detector bits.
    pub detectors: Vec<u8>,
    /// Row-major observable bits.
    pub observables: Vec<u8>,
    /// How many shots have each observable set.
    pub observable_ones: Vec<u64>,
    /// Row-major expectation values, as the bits of doubles.
    pub exp_vals: Vec<u64>,
}

impl<'a> OutputOptions<'a> {
    /// An observable of a shot.
    pub open spec fn observable_bit<A>(&self, shot: Shot<A>, o: int) -> bool {
        groups_parity(
            shot.records,
            self.observable_records@[o]@,
            self.observable_records@[o]@.len() as int,
        ) != flagged(self.expected_observables@, o)
    }

    pub open spec fn measurement_rows<A>(&self, shots: Seq<Shot<A>>) -> Seq<Seq<bool>> {
        Seq::new(shots.len(), |s: int| shots[s].records)
    }

    pub open spec fn detector_row<A>(&self, shot: Shot<A>) -> Seq<bool> {
        Seq::new(
            shot.detectors.len(),
            |d: int| shot.detectors[d] != flagged(self.expected_detectors@, d),
        )
    }

    pub open spec fn detector_rows<A>(&self, shots: Seq<Shot<A>>) -> Seq<Seq<bool>> {
        Seq::new(shots.len(), |s: int| self.detector_row(shots[s]))
    }

    pub open spec fn observable_row<A>(&self, shot: Shot<A>) -> Seq<bool> {
        Seq::new(self.observable_records@.len(), |o: int| self.observable_bit(shot, o))
    }

    pub open spec fn observable_rows<A>(&self, shots: Seq<Shot<A>>) -> Seq<Seq<bool>> {
        Seq::new(shots.len(), |s: int| self.observable_row(shots[s]))
    }

    /// How many of the first `n` shots have an observable set.
    pub open spec fn ones<A>(&self, shots: Seq<Shot<A>>, o: int, n: int) -> int
        decreases n,
    {
        if n <= 0 {
            0
        } else {
            self.ones(shots, o, n - 1) + if self.observable_bit(shots[n - 1], o) {
                1int
            } else {
                0
            }
        }
    }

    /// How many of the shots are logical errors.
    pub open spec fn errors<A>(&self, shots: Seq<Shot<A>>) -> int {
        if self.selected_observable < self.observable_records@.len() {
            self.ones(shots, self.selected_observable as int, shots.len() as int)
        } else {
            0
        }
    }
}

/// The expectation values of the shots, one after the other.
pub open spec fn all_exps<A>(shots: Seq<Shot<A>>) -> Seq<u64>
    decreases shots.len(),
{
    if shots.len() == 0 {
        Seq::empty()
    } else {
        all_exps(shots.drop_last()) + shots.last().exps
    }
}

pub proof fn lemma_ones_bound<'a, A>(o: &OutputOptions<'a>, shots: Seq<Shot<A>>, i: int, n: int)
    ensures
        0 <= o.ones(shots, i, n),
        0 <= n ==> o.ones(shots, i, n) <= n,
    decreases n,
{
    if n > 0 {
        lemma_ones_bound(o, shots, i, n - 1);
    }
}

/// The tally with the rows and counts of more shots.
pub open spec fn tallied<'a, A>(
    o: &OutputOptions<'a>,
    before: SampleTally,
    after: SampleTally,
    shots: Seq<Shot<A>>,
) -> bool {
    &&& after.counts.accepted == before.counts.accepted + shots.len()
    &&& after.counts.logical_errors == before.counts.logical_errors + o.errors(shots)
    &&& after.observable_ones@.len() == before.observable_ones@.len()
    &&& forall|i: int|
        0 <= i < o.observable_records@.len() ==> #[trigger] after.observable_ones@[i]
            == before.observable_ones@[i] + o.ones(shots, i, shots.len() as int)
    &&& if o.keep_records {
        &&& after.measurements@ == before.measurements@ + rows_bytes(
            o.measurement_rows(shots),
            o.bit_packed,
        )
        &&& after.detectors@ == before.detectors@ + rows_bytes(o.detector_rows(shots), o.bit_packed)
        &&& after.observables@ == before.observables@ + rows_bytes(
            o.observable_rows(shots),
            o.bit_packed,
        )
        &&& after.exp_vals@ == before.exp_vals@ + all_exps(shots)
    } else {
        &&& after.measurements@ == before.measurements@
        &&& after.detectors@ == before.detectors@
        &&& after.observables@ == before.observables@
        &&& after.exp_vals@ == before.exp_vals@
    }
}

pub proof fn lemma_ones_concat<'a, A>(o: &OutputOptions<'a>, a: Seq<Shot<A>>, b: Seq<Shot<A>>, i: int, n: int)
    requires
        0 <= n <= b.len(),
    ensures
        o.ones(a + b, i, a.len() + n) == o.ones(a, i, a.len() as int) + o.ones(b, i, n),
    decreases n,
{
    if n == 0 {
        lemma_ones_ext(o, a + b, a, i, a.len() as int);
    } else {
        lemma_ones_concat(o, a, b, i, n - 1);
        assert((a + b)[a.len() + n - 1] == b[n - 1]);
    }
}

proof fn lemma_ones_ext<'a, A>(o: &OutputOptions<'a>, a: Seq<Shot<A>>, b: Seq<Shot<A>>, i: int, n: int)
    requires
        n <= a.len(),
        n <= b.len(),
        forall|s: int|
            0 <= s < n ==> o.observable_bit(#[trigger] a[s], i) == o.observable_bit(b[s], i),
    ensures
        o.ones(a, i, n) == o.ones(b, i, n),
    decreases n,
{
    if n > 0 {
        lemma_ones_ext(o, a, b, i, n - 1);
        assert(o.observable_bit(a[n - 1], i) == o.observable_bit(b[n - 1], i));
    }
}

pub proof fn lemma_exps_concat<A>(a: Seq<Shot<A>>, b: Seq<Shot<A>>)
    ensures
        all_exps(a + b) == all_exps(a) + all_exps(b),
    decreases b.len(),
{
    if b.len() == 0 {
        assert(a + b =~= a);
        assert(all_exps(a) + Seq::<u64>::empty() =~= all_exps(a));
    } else {
        lemma_exps_concat(a, b.drop_last());
        assert((a + b).drop_last() =~= a + b.drop_last());
        assert((a + b).last() == b.last());
        assert(all_exps(a) + (all_exps(b.drop_last()) + b.last().exps) =~= all_exps(a) + all_exps(
            b.drop_last(),
        ) + b.last().exps);
    }
}

proof fn lemma_exps_ext<A>(a: Seq<Shot<A>>, b: Seq<Shot<A>>)
    requires
        a.len() == b.len(),
        forall|s: int| 0 <= s < a.len() ==> (#[trigger] a[s]).exps == b[s].exps,
    ensures
        all_exps(a) == all_exps(b),
    decreases a.len(),
{
    if a.len() > 0 {
        assert forall|s: int| 0 <= s < a.drop_last().len() implies (#[trigger] a.drop_last()[s]).exps
            == b.drop_last()[s].exps by {
            assert(a[s].exps == b[s].exps);
        }
        lemma_exps_ext(a.drop_last(), b.drop_last());
        assert(a[a.len() - 1].exps == b[a.len() - 1].exps);
    }
}

/// Adding shots in two steps is adding them in one.
pub proof fn lemma_tallied_concat<'a, A>(
    o: &OutputOptions<'a>,
    t0: SampleTally,
    t1: SampleTally,
    t2: SampleTally,
    a: Seq<Shot<A>>,
    b: Seq<Shot<A>>,
)
    requires
        tallied(o, t0, t1, a),
        tallied(o, t1, t2, b),
        t0.observable_ones@.len() == o.observable_records@.len(),
    ensures
        tallied(o, t0, t2, a + b),
{
    assert forall|i: int| 0 <= i < o.observable_records@.len() implies #[trigger] t2.observable_ones@[i]
        == t0.observable_ones@[i] + o.ones(a + b, i, (a + b).len() as int) by {
        lemma_ones_concat(o, a, b, i, b.len() as int);
        assert(t1.observable_ones@[i] == t0.observable_ones@[i] + o.ones(a, i, a.len() as int));
    }
    if o.selected_observable < o.observable_records@.len() {
        lemma_ones_concat(o, a, b, o.selected_observable as int, b.len() as int);
    }
    if o.keep_records {
        lemma_rows_bytes_concat(o.measurement_rows(a), o.measurement_rows(b), o.bit_packed);
        lemma_rows_bytes_concat(o.detector_rows(a), o.detector_rows(b), o.bit_packed);
        lemma_rows_bytes_concat(o.observable_rows(a), o.observable_rows(b), o.bit_packed);
        lemma_exps_concat(a, b);
        assert(o.measurement_rows(a + b) =~= o.measurement_rows(a) + o.measurement_rows(b));
        assert(o.detector_rows(a + b) =~= o.detector_rows(a) + o.detector_rows(b));
        assert(o.observable_rows(a + b) =~= o.observable_rows(a) + o.observable_rows(b));
        assert(t2.measurements@ =~= t0.measurements@ + rows_bytes(
            o.measurement_rows(a + b),
            o.bit_packed,
        ));
        assert(t2.detectors@ =~= t0.detectors@ + rows_bytes(o.detector_rows(a + b), o.bit_packed));
        assert(t2.observables@ =~= t0.observables@ + rows_bytes(
            o.observable_rows(a + b),
            o.bit_packed,
        ));
        assert(t2.exp_vals@ =~= t0.exp_vals@ + all_exps(a + b));
    }
}

/// Shots that are read alike are tallied alike.
pub open spec fn read_alike<'a, A>(o: &OutputOptions<'a>, a: Seq<Shot<A>>, b: Seq<Shot<A>>) -> bool {
    &&& a.len() == b.len()
    &&& forall|s: int, i: int|
        0 <= s < a.len() && 0 <= i < o.observable_records@.len() ==> #[trigger] o.observable_bit(
            a[s],
            i,
        ) == o.observable_bit(b[s], i)
    &&& o.keep_records ==> forall|s: int|
        0 <= s < a.len() ==> (#[trigger] a[s]).records == b[s].records && a[s].detectors
            == b[s].detectors && a[s].exps == b[s].exps
}

pub proof fn lemma_tallied_alike<'a, A>(
    o: &OutputOptions<'a>,
    t0: SampleTally,
    t1: SampleTally,
    a: Seq<Shot<A>>,
    b: Seq<Shot<A>>,
)
    requires
        tallied(o, t0, t1, a),
        read_alike(o, a, b),
    ensures
        tallied(o, t0, t1, b),
{
    assert forall|i: int| 0 <= i < o.observable_records@.len() implies #[trigger] o.ones(
        a,
        i,
        a.len() as int,
    ) == o.ones(b, i, b.len() as int) by {
        lemma_ones_ext(o, a, b, i, a.len() as int);
    }
    assert forall|i: int| 0 <= i < o.observable_records@.len() implies #[trigger] t1.observable_ones@[i]
        == t0.observable_ones@[i] + o.ones(b, i, b.len() as int) by {
        assert(o.ones(a, i, a.len() as int) == o.ones(b, i, b.len() as int));
    }
    if o.selected_observable < o.observable_records@.len() {
        let i = o.selected_observable as int;
        assert(o.ones(a, i, a.len() as int) == o.ones(b, i, b.len() as int));
    }
    if o.keep_records {
        assert(o.measurement_rows(a) =~= o.measurement_rows(b));
        assert(o.detector_rows(a) =~= o.detector_rows(b)) by {
            assert forall|s: int| 0 <= s < a.len() implies #[trigger] o.detector_rows(a)[s]
                == o.detector_rows(b)[s] by {
                assert(a[s].detectors == b[s].detectors);
                assert(o.detector_row(a[s]) =~= o.detector_row(b[s]));
            }
        }
        assert(o.observable_rows(a) =~= o.observable_rows(b)) by {
            assert forall|s: int| 0 <= s < a.len() implies #[trigger] o.observable_rows(a)[s]
                == o.observable_rows(b)[s] by {
                assert(o.observable_row(a[s]) =~= o.observable_row(b[s])) by {
                    assert forall|i: int| 0 <= i < o.observable_records@.len() implies o.observable_row(
                        a[s],
                    )[i] == o.observable_row(b[s])[i] by {
                        assert(o.observable_bit(a[s], i) == o.observable_bit(b[s], i));
                    }
                }
            }
        }
        lemma_exps_ext(a, b);
    }
}

/// Counts the shots that have an observable set.
fn count_observable<'a, A: Copy>(
    words: &Vec<u64>,
    runtime: &BatchFactoredExecutorState<A>,
    options: &OutputOptions<'a>,
    observable: usize,
) -> (r: u64)
    requires
        runtime.planes_wf(),
        observable < options.observable_records@.len(),
        words@.len() == options.observable_records@.len() * runtime.batch_words,
        runtime.active_shots <= u64::MAX,
        forall|s: int|
            0 <= s < runtime.active_shots ==> #[trigger] plane_bit(
                words@,
                runtime.batch_words as int,
                observable as int,
                s,
            ) == groups_parity(
                runtime.shot(s, s).records,
                options.observable_records@[observable as int]@,
                options.observable_records@[observable as int]@.len() as int,
            ),
    ensures
        r == options.ones(
            runtime.block(0).shots,
            observable as int,
            runtime.active_shots as int,
        ),
{
    let ghost shots = runtime.block(0).shots;
    let rows: usize = runtime.active_shots;
    let stride: usize = runtime.batch_words;
    let mut total: u64 = 0;
    let mut shot: usize = 0;
    while shot < rows
        invariant
            shot <= rows,
            rows == runtime.active_shots,
            stride == runtime.batch_words,
            runtime.planes_wf(),
            shots == runtime.block(0).shots,
            observable < options.observable_records@.len(),
            words@.len() == options.observable_records@.len() * runtime.batch_words,
            forall|s: int|
                0 <= s < runtime.active_shots ==> #[trigger] plane_bit(
                    words@,
                    runtime.batch_words as int,
                    observable as int,
                    s,
                ) == groups_parity(
                    runtime.shot(s, s).records,
                    options.observable_records@[observable as int]@,
                    options.observable_records@[observable as int]@.len() as int,
                ),
            total == options.ones(shots, observable as int, shot as int),
            total <= shot,
        decreases rows - shot,
    {
        let bit: bool = row_bit_at(
            words.as_slice(),
            options.expected_observables.as_slice(),
            stride,
            observable,
            shot,
            Ghost(options.observable_records@.len() as int),
        );
        assert(shots[shot as int] == runtime.shot(shot as int, shot as int));
        if bit {
            total += 1;
        }
        shot += 1;
    }
    total
}

/// Appends the expectation values of every shot.
fn append_exp_values<A: Copy>(out: &mut Vec<u64>, runtime: &BatchFactoredExecutorState<A>)
    requires
        runtime.planes_wf(),
    ensures
        final(out)@ == old(out)@ + all_exps(runtime.block(0).shots),
{
    let ghost start = out@;
    let ghost shots = runtime.block(0).shots;
    let rows: usize = runtime.active_shots;
    let count: usize = runtime.nexpvals;
    let batches: usize = runtime.batches;
    let ghost len = runtime.exp_values@.len();
    let total: usize = runtime.exp_values.len();
    let mut shot: usize = 0;
    assert(shots.take(0) =~= Seq::<Shot<A>>::empty());
    assert(start + Seq::<u64>::empty() =~= start);
    while shot < rows
        invariant
            shot <= rows,
            rows == runtime.active_shots,
            count == runtime.nexpvals,
            batches == runtime.batches,
            total == runtime.exp_values@.len(),
            runtime.planes_wf(),
            shots == runtime.block(0).shots,
            out@ == start + all_exps(shots.take(shot as int)),
        decreases rows - shot,
    {
        let ghost before = out@;
        let ghost exps = shots[shot as int].exps;
        let mut e: usize = 0;
        assert(before + exps.take(0) =~= before);
        while e < count
            invariant
                e <= count,
                shot < rows,
                rows == runtime.active_shots,
                count == runtime.nexpvals,
                batches == runtime.batches,
                total == runtime.exp_values@.len(),
                runtime.planes_wf(),
                exps.len() == count,
                forall|i: int|
                    0 <= i < count ==> exps[i] == runtime.exp_values@[#[trigger] (i * batches) + shot],
                out@ == before + exps.take(e as int),
            decreases count - e,
        {
            proof {
                lemma_plane_index(batches as int, count as int, e as int, shot as int);
            }
            let at: usize = plane_offset(batches, e, shot);
            let value: u64 = runtime.exp_values[at];
            assert(exps[e as int] == runtime.exp_values@[(e * batches) + shot]);
            assert(exps.take(e + 1) =~= exps.take(e as int).push(value));
            out.push(value);
            assert(out@ =~= before + exps.take(e + 1));
            e += 1;
        }
        proof {
            assert(exps.take(e as int) =~= exps);
            let taken = shots.take(shot + 1);
            assert(taken.drop_last() =~= shots.take(shot as int));
            assert(taken.last() == shots[shot as int]);
            assert(out@ =~= start + all_exps(taken));
        }
        shot += 1;
    }
    assert(shots.take(shot as int) =~= shots);
}

/// Adds the shots of an executed block to the tally.
#[verifier::rlimit(40)]
pub fn append_block_outputs<'a, A: Copy>(
    tally: &mut SampleTally,
    observable_words: &mut Vec<u64>,
    runtime: &BatchFactoredExecutorState<A>,
    options: &OutputOptions<'a>,
) -> (r: Result<()>)
    requires
        runtime.planes_wf(),
        options.keep_records ==> runtime.store_detector_records,
        options.observable_records@.len() * runtime.batch_words <= usize::MAX,
        old(tally).observable_ones@.len() == options.observable_records@.len(),
        old(tally).counts.accepted + runtime.active_shots <= u64::MAX,
        old(tally).counts.logical_errors <= old(tally).counts.accepted,
        forall|i: int|
            0 <= i < options.observable_records@.len() ==> #[trigger] old(tally).observable_ones@[i]
                <= old(tally).counts.accepted,
    ensures
        match r {
            Ok(_) => {
                &&& observables_exist(options.observable_records@, runtime.nrecords as int)
                &&& final(tally).counts.shots == old(tally).counts.shots
                &&& final(tally).counts.discarded == old(tally).counts.discarded
                &&& tallied(options, *old(tally), *final(tally), runtime.block(0).shots)
            },
            Err(e) => {
                &&& !observables_exist(options.observable_records@, runtime.nrecords as int)
                &&& *final(tally) == *old(tally)
                &&& e@ == "observable references an out-of-range measurement record"@
            },
        },
{
    let ghost shots = runtime.block(0).shots;
    let rows: usize = runtime.active_shots;
    match fill_observable_words(
        observable_words,
        runtime,
        options.observable_records.as_slice(),
    ) {
        Err(e) => {
            return Err(e);
        },
        Ok(_) => {},
    }
    let count: usize = options.observable_records.len();
    let mut logical: u64 = 0;
    let mut o: usize = 0;
    while o < count
        invariant
            o <= count,
            count == options.observable_records@.len(),
            rows == runtime.active_shots,
            runtime.planes_wf(),
            shots == runtime.block(0).shots,
            observable_words@.len() == options.observable_records@.len() * runtime.batch_words,
            forall|p: int, s: int|
                0 <= p < count && 0 <= s < runtime.active_shots ==> #[trigger] plane_bit(
                    observable_words@,
                    runtime.batch_words as int,
                    p,
                    s,
                ) == groups_parity(
                    runtime.shot(s, s).records,
                    options.observable_records@[p]@,
                    options.observable_records@[p]@.len() as int,
                ),
            *tally == (SampleTally { observable_ones: tally.observable_ones, ..*old(tally) }),
            tally.observable_ones@.len() == count,
            old(tally).counts.accepted + rows <= u64::MAX,
            forall|i: int|
                0 <= i < count ==> #[trigger] old(tally).observable_ones@[i]
                    <= old(tally).counts.accepted,
            forall|i: int|
                0 <= i < o ==> #[trigger] tally.observable_ones@[i] == old(tally).observable_ones@[i]
                    + options.ones(shots, i, rows as int),
            forall|i: int|
                o <= i < count ==> #[trigger] tally.observable_ones@[i]
                    == old(tally).observable_ones@[i],
            logical == if options.selected_observable < o {
                options.ones(shots, options.selected_observable as int, rows as int)
            } else {
                0
            },
        decreases count - o,
    {
        let ones: u64 = count_observable(observable_words, runtime, options, o);
        proof {
            lemma_ones_bound(options, shots, o as int, rows as int);
            assert(old(tally).observable_ones@[o as int] <= old(tally).counts.accepted);
        }
        let sum: u64 = tally.observable_ones[o] + ones;
        tally.observable_ones.set(o, sum);
        if o == options.selected_observable {
            logical = ones;
        }
        o += 1;
    }
    proof {
        if options.selected_observable < count {
            lemma_ones_bound(options, shots, options.selected_observable as int, rows as int);
        }
    }
    tally.counts = SampleCounts {
        accepted: tally.counts.accepted + rows as u64,
        logical_errors: tally.counts.logical_errors + logical,
        ..tally.counts
    };
    if options.keep_records {
        let stride: usize = runtime.batch_words;
        let none: [u8; 0] = [];
        append_bit_rows(
            &mut tally.measurements,
            runtime.measurement_words.as_slice(),
            &none,
            runtime.nrecords,
            stride,
            rows,
            options.bit_packed,
        );
        append_bit_rows(
            &mut tally.detectors,
            runtime.detector_words.as_slice(),
            options.expected_detectors.as_slice(),
            runtime.ndetectors,
            stride,
            rows,
            options.bit_packed,
        );
        append_bit_rows(
            &mut tally.observables,
            observable_words.as_slice(),
            options.expected_observables.as_slice(),
            count,
            stride,
            rows,
            options.bit_packed,
        );
        append_exp_values(&mut tally.exp_vals, runtime);
        proof {
            let st = stride as int;
            let m = plane_rows(
                runtime.measurement_words@,
                st,
                none@,
                runtime.nrecords as int,
                rows as int,
            );
            assert(m =~= options.measurement_rows(shots)) by {
                assert forall|s: int| 0 <= s < rows implies #[trigger] m[s]
                    == options.measurement_rows(shots)[s] by {
                    assert(m[s] =~= shots[s].records) by {
                        assert forall|q: int| 0 <= q < runtime.nrecords implies m[s][q]
                            == shots[s].records[q] by {
                            assert(shots[s].records[q] == runtime.record_bit(q + 1, s));
                        }
                    }
                }
            }
            let d = plane_rows(
                runtime.detector_words@,
                st,
                options.expected_detectors@,
                runtime.ndetectors as int,
                rows as int,
            );
            assert(d =~= options.detector_rows(shots)) by {
                assert forall|s: int| 0 <= s < rows implies #[trigger] d[s]
                    == options.detector_rows(shots)[s] by {
                    assert(d[s] =~= options.detector_row(shots[s])) by {
                        assert forall|q: int| 0 <= q < runtime.ndetectors implies d[s][q]
                            == options.detector_row(shots[s])[q] by {
                            assert(shots[s].detectors[q] == runtime.detector_bit(q + 1, s));
                        }
                    }
                }
            }
            let v = plane_rows(
                observable_words@,
                st,
                options.expected_observables@,
                count as int,
                rows as int,
            );
            assert(v =~= options.observable_rows(shots)) by {
                assert forall|s: int| 0 <= s < rows implies #[trigger] v[s]
                    == options.observable_rows(shots)[s] by {
                    assert(shots[s].records =~= runtime.shot(s, s).records);
                    assert(v[s] =~= options.observable_row(shots[s])) by {
                        assert forall|p: int| 0 <= p < count implies v[s][p]
                            == options.observable_row(shots[s])[p] by {
                            assert(plane_bit(observable_words@, st, p, s) == groups_parity(
                                runtime.shot(s, s).records,
                                options.observable_records@[p]@,
                                options.observable_records@[p]@.len() as int,
                            ));
                        }
                    }
                }
            }
        }
    }
    Ok(())
}

} // verus!
