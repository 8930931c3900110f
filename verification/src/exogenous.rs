//! Presampling of exogenous symbols: noise coins that do not depend on anything
//! the circuit computes.
//!
//! The symbol-major [`PackedPresampledExogenous`] gives each condition a
//! contiguous bit-plane across shots. Conditions sampled by geometric skips set
//! only a handful of bits, so above a table size their rows are not materialized:
//! each hit is recorded, and the hits of a condition toggle its bits. Which of the
//! two forms a condition takes never changes its values.
//!
//! The random draws themselves come from the caller ([`ExogenousDraws`]).
use vstd::prelude::*;
use crate::bits::{
    low_bits_mask, packed_bit, row_bit, symbol_bit, symbol_bit_mask, symbol_word_count,
    symbol_word_index, word_bit, words_for_bits,
};
use crate::errors::{Result, TicitError};
use crate::planes::{lemma_plane_index, lemma_plane_update, plane_bit, plane_offset};
use crate::program::{BernoulliSampleGroup, FactoredInstructionProgram, RareCategoricalSampleGroup};
use crate::symbolic::{all_positive, SymbolicCategoricalDistribution};

verus! {

broadcast use crate::bits::group_word_bits;

// ---------------------------------------------------------------------------
// Live words
// ---------------------------------------------------------------------------
/// The live shots of a word: shot `64 * word + i` is below `shots`.
pub open spec fn is_live_mask(mask: u64, shots: int, word: int) -> bool {
    forall|i: int| 0 <= i < 64 ==> #[trigger] word_bit(mask, i) == (64 * word + i < shots)
}

/// The mask of the live shots in a word.
pub fn live_word_mask_for_shots(shots: usize, word: usize) -> (r: u64)
    ensures
        is_live_mask(r, shots as int, word as int),
{
    if word >= shots / 64 + 1 {
        return 0;
    }
    assert(64 * word <= shots);
    let left: usize = shots - 64 * word;
    let mask: u64 = low_bits_mask(left);
    mask
}

/// How many words hold `shots` bits.
pub fn packed_shot_word_count(shots: usize) -> (r: usize)
    ensures
        r == words_for_bits(shots as int),
{
    symbol_word_count(shots)
}

// ---------------------------------------------------------------------------
// Hits
// ---------------------------------------------------------------------------
/// A toggle of one shot of one condition; `row` is the condition less one.
#[derive(Clone, Copy, Debug, PartialEq, Eq, Structural)]
pub struct Hit {
    pub row: u32,
    pub shot: u32,
}

/// Whether the hits toggle a bit an odd number of times.
pub open spec fn hit_parity(hits: Seq<Hit>, row: int, shot: int) -> bool
    decreases hits.len(),
{
    if hits.len() == 0 {
        false
    } else {
        hit_parity(hits.drop_last(), row, shot) != (hits.last().row == row && hits.last().shot
            == shot)
    }
}

/// The shots of one row, in the order of the hits.
pub open spec fn row_shots(hits: Seq<Hit>, row: int) -> Seq<u32>
    decreases hits.len(),
{
    if hits.len() == 0 {
        Seq::empty()
    } else if hits.last().row == row {
        row_shots(hits.drop_last(), row).push(hits.last().shot)
    } else {
        row_shots(hits.drop_last(), row)
    }
}

/// Whether a list of shots toggles `shot` an odd number of times.
pub open spec fn shot_parity(shots: Seq<u32>, shot: int) -> bool
    decreases shots.len(),
{
    if shots.len() == 0 {
        false
    } else {
        shot_parity(shots.drop_last(), shot) != (shots.last() == shot)
    }
}

pub proof fn lemma_row_shots_parity(hits: Seq<Hit>, row: int, shot: int)
    ensures
        shot_parity(row_shots(hits, row), shot) == hit_parity(hits, row, shot),
    decreases hits.len(),
{
    if hits.len() > 0 {
        lemma_row_shots_parity(hits.drop_last(), row, shot);
        if hits.last().row == row {
            let rest = row_shots(hits.drop_last(), row);
            assert(rest.push(hits.last().shot).drop_last() =~= rest);
        }
    }
}

pub proof fn lemma_hit_parity_concat(a: Seq<Hit>, b: Seq<Hit>, row: int, shot: int)
    ensures
        hit_parity(a + b, row, shot) == (hit_parity(a, row, shot) != hit_parity(b, row, shot)),
    decreases b.len(),
{
    if b.len() == 0 {
        assert(a + b =~= a);
    } else {
        lemma_hit_parity_concat(a, b.drop_last(), row, shot);
        assert((a + b).drop_last() =~= a + b.drop_last());
    }
}

pub proof fn lemma_no_hits(hits: Seq<Hit>, row: int, shot: int)
    requires
        forall|k: int| 0 <= k < hits.len() ==> (#[trigger] hits[k]).row != row,
    ensures
        !hit_parity(hits, row, shot),
    decreases hits.len(),
{
    if hits.len() > 0 {
        lemma_no_hits(hits.drop_last(), row, shot);
        assert(hits[hits.len() - 1].row != row);
    }
}

pub proof fn lemma_row_shots_concat(a: Seq<Hit>, b: Seq<Hit>, row: int)
    ensures
        row_shots(a + b, row) == row_shots(a, row) + row_shots(b, row),
    decreases b.len(),
{
    if b.len() == 0 {
        assert(a + b =~= a);
        assert(row_shots(a, row) + Seq::<u32>::empty() =~= row_shots(a, row));
    } else {
        lemma_row_shots_concat(a, b.drop_last(), row);
        assert((a + b).drop_last() =~= a + b.drop_last());
        assert((a + b).last() == b.last());
        let head = row_shots(a, row);
        let rest = row_shots(b.drop_last(), row);
        assert(head + rest.push(b.last().shot) =~= (head + rest).push(b.last().shot));
    }
}

pub proof fn lemma_no_row_shots(hits: Seq<Hit>, row: int)
    requires
        forall|k: int| 0 <= k < hits.len() ==> (#[trigger] hits[k]).row != row,
    ensures
        row_shots(hits, row) == Seq::<u32>::empty(),
    decreases hits.len(),
{
    if hits.len() > 0 {
        assert(hits[hits.len() - 1].row != row);
        let rest = hits.drop_last();
        assert forall|k: int| 0 <= k < rest.len() implies (#[trigger] rest[k]).row != row by {
            assert(rest[k] == hits[k]);
        }
        lemma_no_row_shots(rest, row);
    }
}

/// Hits before the end of the chunk toggle nothing past it.
pub proof fn lemma_hits_end(hits: Seq<Hit>, shots: int, row: int, shot: int)
    requires
        forall|k: int| 0 <= k < hits.len() ==> (#[trigger] hits[k]).shot < shots,
        shots <= shot,
    ensures
        !hit_parity(hits, row, shot),
    decreases hits.len(),
{
    if hits.len() > 0 {
        assert(hits[hits.len() - 1].shot < shots);
        let rest = hits.drop_last();
        assert forall|k: int| 0 <= k < rest.len() implies (#[trigger] rest[k]).shot < shots by {
            assert(rest[k] == hits[k]);
        }
        lemma_hits_end(rest, shots, row, shot);
    }
}

/// How many hits fall on rows below `row`.
pub open spec fn hits_below(hits: Seq<Hit>, row: int) -> int
    decreases row,
{
    if row <= 0 {
        0
    } else {
        hits_below(hits, row - 1) + row_shots(hits, row - 1).len()
    }
}

proof fn lemma_hits_below_step(hits: Seq<Hit>, row: int)
    requires
        hits.len() > 0,
    ensures
        hits_below(hits, row) == hits_below(hits.drop_last(), row) + if hits.last().row < row {
            1int
        } else {
            0
        },
    decreases row,
{
    if row > 0 {
        lemma_hits_below_step(hits, row - 1);
    }
}

proof fn lemma_hits_below_total(hits: Seq<Hit>, rows: int)
    requires
        forall|k: int| 0 <= k < hits.len() ==> (#[trigger] hits[k]).row < rows,
        rows >= 0,
    ensures
        hits_below(hits, rows) == hits.len(),
    decreases hits.len(),
{
    if hits.len() == 0 {
        lemma_hits_below_none(hits, rows);
    } else {
        assert(hits[hits.len() - 1].row < rows);
        lemma_hits_below_step(hits, rows);
        lemma_hits_below_total(hits.drop_last(), rows);
    }
}

proof fn lemma_hits_below_none(hits: Seq<Hit>, rows: int)
    requires
        hits.len() == 0,
    ensures
        hits_below(hits, rows) == 0,
    decreases rows,
{
    if rows > 0 {
        lemma_hits_below_none(hits, rows - 1);
    }
}

proof fn lemma_hits_below_monotone(hits: Seq<Hit>, a: int, b: int)
    requires
        a <= b,
    ensures
        hits_below(hits, a) <= hits_below(hits, b),
    decreases b - a,
{
    if a < b {
        lemma_hits_below_monotone(hits, a, b - 1);
        if b <= 0 {
        }
    }
}

proof fn lemma_row_shots_take(hits: Seq<Hit>, k: int, row: int)
    requires
        0 <= k < hits.len(),
    ensures
        row_shots(hits.take(k + 1), row) == if hits[k].row == row {
            row_shots(hits.take(k), row).push(hits[k].shot)
        } else {
            row_shots(hits.take(k), row)
        },
{
    assert(hits.take(k + 1).drop_last() =~= hits.take(k));
    assert(hits.take(k + 1).last() == hits[k]);
}

proof fn lemma_row_shots_grow(hits: Seq<Hit>, k: int, row: int)
    requires
        0 <= k <= hits.len(),
    ensures
        row_shots(hits.take(k), row).len() <= row_shots(hits, row).len(),
    decreases hits.len() - k,
{
    if k < hits.len() {
        lemma_row_shots_take(hits, k, row);
        lemma_row_shots_grow(hits, k + 1, row);
    } else {
        assert(hits.take(k) =~= hits);
    }
}

/// The per-condition index of the hits: row `r` has its shots at
/// `offsets[r]..offsets[r + 1]`.
pub struct HitIndex {
    pub offsets: Vec<usize>,
    pub shots: Vec<u32>,
}

/// The index lists every row's shots in the order of the hits.
pub open spec fn indexes(offsets: Seq<usize>, shots: Seq<u32>, rows: int, hits: Seq<Hit>) -> bool {
    &&& offsets.len() == rows + 1
    &&& forall|r: int| 0 <= r <= rows ==> #[trigger] offsets[r] == hits_below(hits, r)
    &&& shots.len() == hits.len()
    &&& forall|r: int|
        0 <= r < rows ==> shots.subrange(offsets[r] as int, offsets[r + 1] as int) == #[trigger] row_shots(
            hits,
            r,
        )
}

/// Counting-sorts the hits into the per-condition index.
pub fn build_sparse_condition_hits(nsymbols: usize, hits: &Vec<Hit>) -> (r: HitIndex)
    requires
        nsymbols < usize::MAX,
        forall|k: int| 0 <= k < hits@.len() ==> (#[trigger] hits@[k]).row < nsymbols,
    ensures
        indexes(r.offsets@, r.shots@, nsymbols as int, hits@),
{
    let ghost rows = nsymbols as int;
    let mut counts: Vec<usize> = Vec::new();
    let mut i: usize = 0;
    while i < nsymbols
        invariant
            i <= nsymbols,
            counts@.len() == i,
            forall|r: int| 0 <= r < i ==> #[trigger] counts@[r] == 0,
        decreases nsymbols - i,
    {
        counts.push(0);
        i += 1;
    }
    let mut k: usize = 0;
    assert forall|r: int| 0 <= r < rows implies #[trigger] counts@[r] == row_shots(
        hits@.take(0),
        r,
    ).len() by {
        assert(hits@.take(0).len() == 0);
    }
    while k < hits.len()
        invariant
            k <= hits@.len(),
            rows == nsymbols,
            counts@.len() == nsymbols,
            forall|k: int| 0 <= k < hits@.len() ==> (#[trigger] hits@[k]).row < nsymbols,
            forall|r: int|
                0 <= r < rows ==> #[trigger] counts@[r] == row_shots(hits@.take(k as int), r).len(),
            forall|r: int| 0 <= r < rows ==> #[trigger] counts@[r] <= k,
        decreases hits@.len() - k,
    {
        let row: usize = hits[k].row as usize;
        assert(hits@[k as int].row < nsymbols);
        let ghost before = counts@;
        let len: usize = hits.len();
        counts[row] = counts[row] + 1;
        proof {
            assert forall|r: int| 0 <= r < rows implies #[trigger] counts@[r] == row_shots(
                hits@.take(k + 1),
                r,
            ).len() && counts@[r] <= k + 1 by {
                lemma_row_shots_take(hits@, k as int, r);
                assert(before[r] == row_shots(hits@.take(k as int), r).len());
            }
        }
        k += 1;
    }
    assert(hits@.take(k as int) =~= hits@);
    let mut offsets: Vec<usize> = Vec::new();
    offsets.push(0);
    let mut row: usize = 0;
    proof {
        lemma_hits_below_total(hits@, rows);
    }
    while row < nsymbols
        invariant
            row <= nsymbols,
            rows == nsymbols,
            counts@.len() == nsymbols,
            offsets@.len() == row + 1,
            hits_below(hits@, rows) == hits@.len(),
            hits@.len() <= usize::MAX,
            forall|r: int| 0 <= r < rows ==> #[trigger] counts@[r] == row_shots(hits@, r).len(),
            forall|r: int| 0 <= r <= row ==> #[trigger] offsets@[r] == hits_below(hits@, r),
        decreases nsymbols - row,
    {
        proof {
            lemma_hits_below_monotone(hits@, row + 1, rows);
        }
        let next: usize = offsets[row] + counts[row];
        offsets.push(next);
        row += 1;
    }
    let mut cursors: Vec<usize> = Vec::new();
    let mut c: usize = 0;
    while c < nsymbols
        invariant
            c <= nsymbols,
            offsets@.len() == nsymbols + 1,
            cursors@.len() == c,
            forall|r: int| 0 <= r < c ==> #[trigger] cursors@[r] == offsets@[r],
        decreases nsymbols - c,
    {
        cursors.push(offsets[c]);
        c += 1;
    }
    let mut shots: Vec<u32> = Vec::new();
    let mut z: usize = 0;
    while z < hits.len()
        invariant
            z <= hits@.len(),
            shots@.len() == z,
        decreases hits@.len() - z,
    {
        shots.push(0);
        z += 1;
    }
    let mut m: usize = 0;
    assert forall|r: int| 0 <= r < rows implies #[trigger] cursors@[r] == offsets@[r] + row_shots(
        hits@.take(0),
        r,
    ).len() by {
        assert(hits@.take(0).len() == 0);
    }
    while m < hits.len()
        invariant
            m <= hits@.len(),
            rows == nsymbols,
            cursors@.len() == nsymbols,
            offsets@.len() == nsymbols + 1,
            shots@.len() == hits@.len(),
            hits_below(hits@, rows) == hits@.len(),
            forall|k: int| 0 <= k < hits@.len() ==> (#[trigger] hits@[k]).row < nsymbols,
            forall|r: int| 0 <= r <= rows ==> #[trigger] offsets@[r] == hits_below(hits@, r),
            forall|r: int|
                0 <= r < rows ==> #[trigger] cursors@[r] == offsets@[r] + row_shots(
                    hits@.take(m as int),
                    r,
                ).len(),
            forall|r: int, j: int|
                0 <= r < rows && 0 <= j < row_shots(hits@.take(m as int), r).len()
                    ==> shots@[offsets@[r] + j] == #[trigger] row_shots(hits@.take(m as int), r)[j],
        decreases hits@.len() - m,
    {
        let row: usize = hits[m].row as usize;
        assert(hits@[m as int].row < nsymbols);
        let at: usize = cursors[row];
        let ghost taken = hits@.take(m as int);
        let ghost next = hits@.take(m + 1);
        let ghost shots0 = shots@;
        let ghost cursors0 = cursors@;
        proof {
            lemma_row_shots_take(hits@, m as int, row as int);
            lemma_row_shots_grow(hits@, m + 1, row as int);
            lemma_hits_below_monotone(hits@, row + 1, rows);
            assert(hits_below(hits@, row + 1) == hits_below(hits@, row as int) + row_shots(
                hits@,
                row as int,
            ).len());
        }
        shots[at] = hits[m].shot;
        cursors[row] = at + 1;
        proof {
            assert forall|r: int| 0 <= r < rows implies #[trigger] cursors@[r] == offsets@[r]
                + row_shots(next, r).len() by {
                lemma_row_shots_take(hits@, m as int, r);
                assert(cursors0[r] == offsets@[r] + row_shots(taken, r).len());
            }
            assert forall|r: int, j: int| 0 <= r < rows && 0 <= j < row_shots(next, r).len() implies shots@[
            offsets@[r] + j] == #[trigger] row_shots(next, r)[j] by {
                lemma_row_shots_take(hits@, m as int, r);
                lemma_row_shots_grow(hits@, m + 1, r);
                lemma_hits_below_monotone(hits@, r + 1, rows);
                assert(hits_below(hits@, r + 1) == hits_below(hits@, r) + row_shots(hits@, r).len());
                assert(cursors0[r] == offsets@[r] + row_shots(taken, r).len());
                if r == row && j == row_shots(taken, r).len() {
                    assert(offsets@[r] + j == at);
                } else {
                    assert(j < row_shots(taken, r).len());
                    assert(shots0[offsets@[r] + j] == row_shots(taken, r)[j]);
                    if r < row {
                        lemma_hits_below_monotone(hits@, r + 1, row as int);
                        assert(hits_below(hits@, r + 1) == hits_below(hits@, r) + row_shots(
                            hits@,
                            r,
                        ).len());
                    } else if r > row {
                        lemma_hits_below_monotone(hits@, row + 1, r);
                    }
                    assert(offsets@[r] + j != at);
                }
            }
        }
        m += 1;
    }
    proof {
        assert(hits@.take(m as int) =~= hits@);
        assert forall|r: int| 0 <= r < rows implies shots@.subrange(
            offsets@[r] as int,
            offsets@[r + 1] as int,
        ) == #[trigger] row_shots(hits@, r) by {
            assert(hits_below(hits@, r + 1) == hits_below(hits@, r) + row_shots(hits@, r).len());
            lemma_hits_below_monotone(hits@, r + 1, rows);
            let part = shots@.subrange(offsets@[r] as int, offsets@[r + 1] as int);
            assert forall|j: int| 0 <= j < part.len() implies part[j] == row_shots(hits@, r)[j] by {
                assert(row_shots(hits@, r)[j] == row_shots(hits@, r)[j]);
            }
            assert(part =~= row_shots(hits@, r));
        }
    }
    HitIndex { offsets, shots }
}

// ---------------------------------------------------------------------------
// Which conditions are exogenous
// ---------------------------------------------------------------------------
/// A categorical distribution below `n` draws the condition.
pub open spec fn categorical_has(program: &FactoredInstructionProgram, n: int, c: i32) -> bool {
    exists|j: int|
        0 <= j < n && (#[trigger] program.sampled_categorical_distributions@[j]).conditions@.contains(c)
}

/// A condition set of the group below `n` holds the condition.
pub open spec fn sets_have(sets: Seq<Vec<i32>>, n: int, c: i32) -> bool {
    exists|k: int| 0 <= k < n && (#[trigger] sets[k])@.contains(c)
}

/// A rare categorical group below `n` draws the condition.
pub open spec fn rare_has(program: &FactoredInstructionProgram, n: int, c: i32) -> bool {
    exists|j: int|
        0 <= j < n && sets_have(
            (#[trigger] program.sampled_rare_categorical_groups@[j]).conditions@,
            program.sampled_rare_categorical_groups@[j].conditions@.len() as int,
            c,
        )
}

/// A low-probability group below `n` draws the condition.
pub open spec fn low_has(program: &FactoredInstructionProgram, n: int, c: i32) -> bool {
    exists|j: int|
        0 <= j < n && (
        #[trigger] program.sampled_low_probability_bernoulli_groups@[j]).conditions@.contains(c)
}

/// The geometric-skip families draw the condition.
pub open spec fn is_skip_condition(program: &FactoredInstructionProgram, c: i32) -> bool {
    ||| rare_has(program, program.sampled_rare_categorical_groups@.len() as int, c)
    ||| low_has(program, program.sampled_low_probability_bernoulli_groups@.len() as int, c)
}

/// The presampler assigns the condition.
pub open spec fn is_exogenous(program: &FactoredInstructionProgram, c: i32) -> bool {
    ||| categorical_has(program, program.sampled_categorical_distributions@.len() as int, c)
    ||| program.sampled_bernoulli_conditions@.contains(c)
    ||| is_skip_condition(program, c)
}

/// Every sampled condition is a symbol id.
pub open spec fn exogenous_positive(program: &FactoredInstructionProgram) -> bool {
    &&& forall|j: int|
        0 <= j < program.sampled_categorical_distributions@.len() ==> all_positive(
            (#[trigger] program.sampled_categorical_distributions@[j]).conditions@,
        )
    &&& forall|j: int, k: int|
        0 <= j < program.sampled_rare_categorical_groups@.len() && 0 <= k
            < program.sampled_rare_categorical_groups@[j].conditions@.len() ==> all_positive(
            (#[trigger] program.sampled_rare_categorical_groups@[j].conditions@[k])@,
        )
    &&& all_positive(program.sampled_bernoulli_conditions@)
    &&& forall|j: int|
        0 <= j < program.sampled_low_probability_bernoulli_groups@.len() ==> all_positive(
            (#[trigger] program.sampled_low_probability_bernoulli_groups@[j]).conditions@,
        )
}

/// The bitset holds exactly the conditions of `has` among the symbol ids.
pub open spec fn marks(words: Seq<u64>, has: spec_fn(i32) -> bool) -> bool {
    forall|c: i32| c > 0 ==> #[trigger] row_bit(words, symbol_bit(c as int)) == has(c)
}

/// No bit stands past the last symbol id.
#[verifier::opaque]
pub open spec fn no_late_bit(words: Seq<u64>) -> bool {
    forall|b: int| b >= i32::MAX ==> !#[trigger] row_bit(words, b)
}

/// The word of the condition lies outside a table of `len` words.
pub open spec fn outside(c: i32, len: int) -> bool {
    symbol_bit(c as int) / 64 >= len
}

fn zero_words(len: usize) -> (r: Vec<u64>)
    ensures
        r@.len() == len,
        forall|k: int| 0 <= k < len ==> #[trigger] r@[k] == 0,
        forall|i: int| !#[trigger] row_bit(r@, i),
        no_late_bit(r@),
{
    let mut out: Vec<u64> = Vec::new();
    let mut k: usize = 0;
    while k < len
        invariant
            k <= len,
            out@.len() == k,
            forall|j: int| 0 <= j < k ==> #[trigger] out@[j] == 0,
        decreases len - k,
    {
        out.push(0);
        k += 1;
    }
    assert forall|i: int| !#[trigger] row_bit(out@, i) by {
        if 0 <= i < 64 * out@.len() {
            assert(out@[i / 64] == 0);
        }
    }
    assert(no_late_bit(out@)) by {
        reveal(no_late_bit);
    }
    out
}

/// Sets one bit of a bitset.
proof fn lemma_set_bit(before: Seq<u64>, word: int, k: u64, b: int)
    requires
        0 <= word < before.len(),
        k < 64,
    ensures
        row_bit(before.update(word, before[word] | (1u64 << k)), b) == (row_bit(before, b) || b
            == 64 * word + k),
{
    let after = before.update(word, before[word] | (1u64 << k));
    if 0 <= b < 64 * before.len() {
        if b / 64 == word {
            assert(word_bit(before[word] | (1u64 << k), b % 64) == (word_bit(before[word], b % 64)
                || word_bit(1u64 << k, b % 64)));
        } else {
            assert(after[b / 64] == before[b / 64]);
        }
    }
}

/// Clears one bit of a bitset.
proof fn lemma_clear_bit(before: Seq<u64>, word: int, k: u64, b: int)
    requires
        0 <= word < before.len(),
        k < 64,
    ensures
        row_bit(before.update(word, before[word] & !(1u64 << k)), b) == (row_bit(before, b) && b
            != 64 * word + k),
{
    let after = before.update(word, before[word] & !(1u64 << k));
    if 0 <= b < 64 * before.len() {
        if b / 64 == word {
            assert(word_bit(before[word] & !(1u64 << k), b % 64) == (word_bit(before[word], b % 64)
                && word_bit(!(1u64 << k), b % 64)));
        } else {
            assert(after[b / 64] == before[b / 64]);
        }
    }
}

fn mark_exogenous_conditions(words: &mut Vec<u64>, conditions: &Vec<i32>) -> (r: Result<()>)
    requires
        all_positive(conditions@),
    ensures
        final(words)@.len() == old(words)@.len(),
        match r {
            Ok(_) => {
                &&& forall|c: i32| c > 0 ==> #[trigger] row_bit(final(words)@, symbol_bit(c as int))
                    == (row_bit(old(words)@, symbol_bit(c as int)) || conditions@.contains(c))
                &&& forall|c: i32| #[trigger]
                    conditions@.contains(c) ==> !outside(c, old(words)@.len() as int)
                &&& no_late_bit(old(words)@) ==> no_late_bit(final(words)@)
            },
            Err(e) => {
                &&& exists|c: i32| #[trigger]
                    conditions@.contains(c) && outside(c, old(words)@.len() as int)
                &&& e@ == "exogenous condition exceeds program symbol table"@
            },
        },
{
    let ghost start = words@;
    let mut k: usize = 0;
    while k < conditions.len()
        invariant
            k <= conditions@.len(),
            all_positive(conditions@),
            words@.len() == start.len(),
            start == old(words)@,
            forall|c: i32|
                c > 0 ==> #[trigger] row_bit(words@, symbol_bit(c as int)) == (row_bit(
                    start,
                    symbol_bit(c as int),
                ) || conditions@.take(k as int).contains(c)),
            forall|j: int| 0 <= j < k ==> !outside(#[trigger] conditions@[j], start.len() as int),
            no_late_bit(start) ==> no_late_bit(words@),
        decreases conditions@.len() - k,
    {
        let condition: i32 = conditions[k];
        assert(0 < conditions@[k as int]);
        let word: usize = symbol_word_index(condition);
        if word >= words.len() {
            assert(conditions@.contains(condition) && outside(condition, start.len() as int));
            return Err(TicitError::new("exogenous condition exceeds program symbol table"));
        }
        let ghost before = words@;
        let mask: u64 = symbol_bit_mask(condition);
        words[word] = words[word] | mask;
        proof {
            let taken = conditions@.take(k + 1);
            assert(no_late_bit(before) ==> no_late_bit(words@)) by {
                reveal(no_late_bit);
                assert forall|b: int| no_late_bit(before) && b >= i32::MAX implies !(
                #[trigger] row_bit(words@, b)) by {
                    lemma_set_bit(before, word as int, (symbol_bit(condition as int) % 64) as u64, b);
                }
            }
            assert forall|c: i32| c > 0 implies #[trigger] row_bit(words@, symbol_bit(c as int)) == (
            row_bit(start, symbol_bit(c as int)) || taken.contains(c)) by {
                lemma_set_bit(
                    before,
                    word as int,
                    (symbol_bit(condition as int) % 64) as u64,
                    symbol_bit(c as int),
                );
                lemma_take_contains(conditions@, k as int, c);
                assert(row_bit(before, symbol_bit(c as int)) == (row_bit(
                    start,
                    symbol_bit(c as int),
                ) || conditions@.take(k as int).contains(c)));
            }
        }
        k += 1;
    }
    proof {
        assert(conditions@.take(k as int) =~= conditions@);
        assert forall|c: i32| #[trigger] conditions@.contains(c) implies !outside(
            c,
            start.len() as int,
        ) by {
            let j = choose|j: int| 0 <= j < conditions@.len() && conditions@[j] == c;
            assert(!outside(conditions@[j], start.len() as int));
        }
    }
    Ok(())
}

pub proof fn lemma_take_contains(s: Seq<i32>, k: int, c: i32)
    requires
        0 <= k < s.len(),
    ensures
        s.take(k + 1).contains(c) == (s.take(k).contains(c) || s[k] == c),
{
    let a = s.take(k + 1);
    if s[k] == c {
        assert(a[k] == c);
    }
    if s.take(k).contains(c) {
        let j = choose|j: int| 0 <= j < k && s.take(k)[j] == c;
        assert(a[j] == c);
    }
    if a.contains(c) {
        let j = choose|j: int| 0 <= j < k + 1 && a[j] == c;
        if j < k {
            assert(s.take(k)[j] == c);
        }
    }
}

/// Marks the conditions of the rare categorical groups and the low-probability
/// groups.
fn mark_skip_conditions(words: &mut Vec<u64>, program: &FactoredInstructionProgram) -> (r: Result<()>)
    requires
        exogenous_positive(program),
    ensures
        final(words)@.len() == old(words)@.len(),
        match r {
            Ok(_) => {
                &&& forall|c: i32| c > 0 ==> #[trigger] row_bit(final(words)@, symbol_bit(c as int))
                    == (row_bit(old(words)@, symbol_bit(c as int)) || is_skip_condition(program, c))
                &&& forall|c: i32| #[trigger]
                    is_skip_condition(program, c) ==> !outside(c, old(words)@.len() as int)
                &&& no_late_bit(old(words)@) ==> no_late_bit(final(words)@)
            },
            Err(e) => {
                &&& exists|c: i32| #[trigger]
                    is_skip_condition(program, c) && outside(c, old(words)@.len() as int)
                &&& e@ == "exogenous condition exceeds program symbol table"@
            },
        },
{
    let ghost start = words@;
    let ghost len = start.len() as int;
    let mut j: usize = 0;
    while j < program.sampled_rare_categorical_groups.len()
        invariant
            j <= program.sampled_rare_categorical_groups@.len(),
            exogenous_positive(program),
            words@.len() == len,
            len == old(words)@.len(),
            forall|c: i32|
                c > 0 ==> #[trigger] row_bit(words@, symbol_bit(c as int)) == (row_bit(
                    start,
                    symbol_bit(c as int),
                ) || rare_has(program, j as int, c)),
            forall|c: i32| #[trigger] rare_has(program, j as int, c) ==> !outside(c, len),
            no_late_bit(old(words)@) ==> no_late_bit(words@),
        decreases program.sampled_rare_categorical_groups@.len() - j,
    {
        let group: &RareCategoricalSampleGroup = &program.sampled_rare_categorical_groups[j];
        let ghost sets = group.conditions@;
        let ghost begun = words@;
        let mut k: usize = 0;
        while k < group.conditions.len()
            invariant
                j < program.sampled_rare_categorical_groups@.len(),
                *group == program.sampled_rare_categorical_groups@[j as int],
                sets == group.conditions@,
                k <= sets.len(),
                exogenous_positive(program),
                words@.len() == len,
                len == old(words)@.len(),
                forall|c: i32|
                    c > 0 ==> #[trigger] row_bit(words@, symbol_bit(c as int)) == (row_bit(
                        begun,
                        symbol_bit(c as int),
                    ) || sets_have(sets, k as int, c)),
                forall|c: i32| #[trigger] sets_have(sets, k as int, c) ==> !outside(c, len),
                no_late_bit(old(words)@) ==> no_late_bit(words@),
            decreases sets.len() - k,
        {
            let ghost before = words@;
            assert(all_positive(
                program.sampled_rare_categorical_groups@[j as int].conditions@[k as int]@,
            ));
            match mark_exogenous_conditions(words, &group.conditions[k]) {
                Ok(_) => {},
                Err(e) => {
                    proof {
                        let c = choose|c: i32| #[trigger]
                            sets[k as int]@.contains(c) && outside(c, len);
                        assert(sets_have(sets, sets.len() as int, c));
                        assert(rare_has(
                            program,
                            program.sampled_rare_categorical_groups@.len() as int,
                            c,
                        ));
                        assert(is_skip_condition(program, c) && outside(c, len));
                    }
                    return Err(e);
                },
            }
            proof {
                let m = k + 1;
                assert forall|c: i32| #[trigger] sets_have(sets, m, c) == (sets_have(
                    sets,
                    k as int,
                    c,
                ) || sets[k as int]@.contains(c)) by {
                    if sets_have(sets, m, c) {
                        let i = choose|i: int| 0 <= i < m && (#[trigger] sets[i])@.contains(c);
                        if i < k {
                            assert(sets_have(sets, k as int, c));
                        }
                    }
                    if sets_have(sets, k as int, c) {
                        let i = choose|i: int| 0 <= i < k && (#[trigger] sets[i])@.contains(c);
                        assert(sets[i]@.contains(c));
                    }
                }
                assert forall|c: i32| c > 0 implies #[trigger] row_bit(words@, symbol_bit(c as int))
                    == (row_bit(begun, symbol_bit(c as int)) || sets_have(sets, m, c)) by {
                    assert(row_bit(before, symbol_bit(c as int)) == (row_bit(
                        begun,
                        symbol_bit(c as int),
                    ) || sets_have(sets, k as int, c)));
                    assert(sets_have(sets, m, c) == (sets_have(sets, k as int, c)
                        || sets[k as int]@.contains(c)));
                }
                assert forall|c: i32| #[trigger] sets_have(sets, m, c) implies !outside(c, len) by {
                    assert(sets_have(sets, m, c) == (sets_have(sets, k as int, c)
                        || sets[k as int]@.contains(c)));
                }
            }
            k += 1;
        }
        proof {
            let m = j + 1;
            let total = sets.len() as int;
            assert forall|c: i32| #[trigger] rare_has(program, m, c) == (rare_has(
                program,
                j as int,
                c,
            ) || sets_have(sets, total, c)) by {
                if rare_has(program, m, c) {
                    let i = choose|i: int|
                        0 <= i < m && sets_have(
                            (#[trigger] program.sampled_rare_categorical_groups@[i]).conditions@,
                            program.sampled_rare_categorical_groups@[i].conditions@.len() as int,
                            c,
                        );
                    if i < j {
                        assert(rare_has(program, j as int, c));
                    }
                }
                if rare_has(program, j as int, c) {
                    let i = choose|i: int|
                        0 <= i < j && sets_have(
                            (#[trigger] program.sampled_rare_categorical_groups@[i]).conditions@,
                            program.sampled_rare_categorical_groups@[i].conditions@.len() as int,
                            c,
                        );
                    assert(program.sampled_rare_categorical_groups@[i].conditions@.len() >= 0);
                }
                if sets_have(sets, total, c) {
                    assert(program.sampled_rare_categorical_groups@[j as int].conditions@ == sets);
                }
            }
            assert forall|c: i32| c > 0 implies #[trigger] row_bit(words@, symbol_bit(c as int)) == (
            row_bit(start, symbol_bit(c as int)) || rare_has(program, m, c)) by {
                assert(row_bit(begun, symbol_bit(c as int)) == (row_bit(
                    start,
                    symbol_bit(c as int),
                ) || rare_has(program, j as int, c)));
                assert(rare_has(program, m, c) == (rare_has(program, j as int, c) || sets_have(
                    sets,
                    total,
                    c,
                )));
            }
            assert forall|c: i32| #[trigger] rare_has(program, m, c) implies !outside(c, len) by {
                assert(rare_has(program, m, c) == (rare_has(program, j as int, c) || sets_have(
                    sets,
                    total,
                    c,
                )));
            }
        }
        j += 1;
    }
    let ghost rare_total = j as int;
    let ghost marked = words@;
    let mut l: usize = 0;
    while l < program.sampled_low_probability_bernoulli_groups.len()
        invariant
            l <= program.sampled_low_probability_bernoulli_groups@.len(),
            rare_total == program.sampled_rare_categorical_groups@.len(),
            exogenous_positive(program),
            words@.len() == len,
            len == old(words)@.len(),
            forall|c: i32|
                c > 0 ==> #[trigger] row_bit(words@, symbol_bit(c as int)) == (row_bit(
                    marked,
                    symbol_bit(c as int),
                ) || low_has(program, l as int, c)),
            forall|c: i32| #[trigger] low_has(program, l as int, c) ==> !outside(c, len),
            no_late_bit(old(words)@) ==> no_late_bit(words@),
        decreases program.sampled_low_probability_bernoulli_groups@.len() - l,
    {
        let ghost before = words@;
        let group: &BernoulliSampleGroup = &program.sampled_low_probability_bernoulli_groups[l];
        let ghost listed = group.conditions@;
        assert(all_positive(
            program.sampled_low_probability_bernoulli_groups@[l as int].conditions@,
        ));
        match mark_exogenous_conditions(words, &group.conditions) {
            Ok(_) => {},
            Err(e) => {
                proof {
                    let c = choose|c: i32| #[trigger] listed.contains(c) && outside(c, len);
                    assert(low_has(
                        program,
                        program.sampled_low_probability_bernoulli_groups@.len() as int,
                        c,
                    ));
                    assert(is_skip_condition(program, c) && outside(c, len));
                }
                return Err(e);
            },
        }
        proof {
            let m = l + 1;
            assert forall|c: i32| #[trigger] low_has(program, m, c) == (low_has(
                program,
                l as int,
                c,
            ) || listed.contains(c)) by {
                if low_has(program, m, c) {
                    let i = choose|i: int|
                        0 <= i < m && (
                        #[trigger] program.sampled_low_probability_bernoulli_groups@[i]).conditions@.contains(
                        c);
                    if i < l {
                        assert(low_has(program, l as int, c));
                    }
                }
                if low_has(program, l as int, c) {
                    let i = choose|i: int|
                        0 <= i < l && (
                        #[trigger] program.sampled_low_probability_bernoulli_groups@[i]).conditions@.contains(
                        c);
                    assert(program.sampled_low_probability_bernoulli_groups@[i].conditions@.contains(
                        c));
                }
                if listed.contains(c) {
                    assert(program.sampled_low_probability_bernoulli_groups@[l as int].conditions@
                        == listed);
                }
            }
            assert forall|c: i32| c > 0 implies #[trigger] row_bit(words@, symbol_bit(c as int)) == (
            row_bit(marked, symbol_bit(c as int)) || low_has(program, m, c)) by {
                assert(row_bit(before, symbol_bit(c as int)) == (row_bit(
                    marked,
                    symbol_bit(c as int),
                ) || low_has(program, l as int, c)));
                assert(low_has(program, m, c) == (low_has(program, l as int, c) || listed.contains(
                    c,
                )));
            }
            assert forall|c: i32| #[trigger] low_has(program, m, c) implies !outside(c, len) by {
                assert(low_has(program, m, c) == (low_has(program, l as int, c) || listed.contains(
                    c,
                )));
            }
        }
        l += 1;
    }
    proof {
        assert forall|c: i32| c > 0 implies #[trigger] row_bit(words@, symbol_bit(c as int)) == (
        row_bit(start, symbol_bit(c as int)) || is_skip_condition(program, c)) by {
            assert(row_bit(marked, symbol_bit(c as int)) == (row_bit(start, symbol_bit(c as int))
                || rare_has(program, rare_total, c)));
        }
        assert forall|c: i32| #[trigger] is_skip_condition(program, c) implies !outside(c, len) by {
            if rare_has(program, rare_total, c) {
            } else {
                assert(low_has(program, l as int, c));
            }
        }
    }
    Ok(())
}

/// Bitset of every condition the presampler keeps sparse where it can: the two
/// geometric-skip families.
fn sparse_condition_words(program: &FactoredInstructionProgram) -> (r: Result<Vec<u64>>)
    requires
        exogenous_positive(program),
    ensures
        match r {
            Ok(words) => {
                &&& words@.len() == words_for_bits(program.nsymbols as int)
                &&& marks(words@, |c: i32| is_skip_condition(program, c))
                &&& no_late_bit(words@)
            },
            Err(e) => {
                &&& exists|c: i32| #[trigger]
                    is_skip_condition(program, c) && outside(
                        c,
                        words_for_bits(program.nsymbols as int),
                    )
                &&& e@ == "exogenous condition exceeds program symbol table"@
            },
        },
{
    let mut words: Vec<u64> = zero_words(symbol_word_count(program.nsymbols));
    match mark_skip_conditions(&mut words, program) {
        Ok(_) => Ok(words),
        Err(e) => Err(e),
    }
}

/// Bitset of every condition the presampler assigns: the split key between
/// exogenous and residual conditions in expression plans.
pub fn exogenous_assigned_words(program: &FactoredInstructionProgram) -> (r: Result<Vec<u64>>)
    requires
        exogenous_positive(program),
    ensures
        match r {
            Ok(words) => {
                &&& words@.len() == words_for_bits(program.nsymbols as int)
                &&& marks(words@, |c: i32| is_exogenous(program, c))
                &&& forall|c: i32| #[trigger]
                    is_exogenous(program, c) ==> !outside(
                        c,
                        words_for_bits(program.nsymbols as int),
                    )
            },
            Err(e) => {
                &&& exists|c: i32| #[trigger]
                    is_exogenous(program, c) && outside(c, words_for_bits(program.nsymbols as int))
                &&& e@ == "exogenous condition exceeds program symbol table"@
            },
        },
{
    let mut words: Vec<u64> = zero_words(symbol_word_count(program.nsymbols));
    let ghost len = words@.len() as int;
    let mut j: usize = 0;
    assert forall|c: i32| !#[trigger] categorical_has(program, 0, c) by {}
    while j < program.sampled_categorical_distributions.len()
        invariant
            j <= program.sampled_categorical_distributions@.len(),
            exogenous_positive(program),
            words@.len() == len,
            len == words_for_bits(program.nsymbols as int),
            forall|c: i32|
                c > 0 ==> #[trigger] row_bit(words@, symbol_bit(c as int)) == categorical_has(
                    program,
                    j as int,
                    c,
                ),
            forall|c: i32| #[trigger] categorical_has(program, j as int, c) ==> !outside(c, len),
        decreases program.sampled_categorical_distributions@.len() - j,
    {
        let ghost before = words@;
        let distribution: &SymbolicCategoricalDistribution =
            &program.sampled_categorical_distributions[j];
        let ghost listed = distribution.conditions@;
        assert(all_positive(program.sampled_categorical_distributions@[j as int].conditions@));
        match mark_exogenous_conditions(&mut words, &distribution.conditions) {
            Ok(_) => {},
            Err(e) => {
                proof {
                    let c = choose|c: i32| #[trigger] listed.contains(c) && outside(c, len);
                    assert(categorical_has(
                        program,
                        program.sampled_categorical_distributions@.len() as int,
                        c,
                    ));
                    assert(is_exogenous(program, c) && outside(c, len));
                }
                return Err(e);
            },
        }
        proof {
            let m = j + 1;
            assert forall|c: i32| #[trigger] categorical_has(program, m, c) == (categorical_has(
                program,
                j as int,
                c,
            ) || listed.contains(c)) by {
                if categorical_has(program, m, c) {
                    let i = choose|i: int|
                        0 <= i < m && (
                        #[trigger] program.sampled_categorical_distributions@[i]).conditions@.contains(c);
                    if i < j {
                        assert(categorical_has(program, j as int, c));
                    }
                }
                if categorical_has(program, j as int, c) {
                    let i = choose|i: int|
                        0 <= i < j && (
                        #[trigger] program.sampled_categorical_distributions@[i]).conditions@.contains(c);
                    assert(program.sampled_categorical_distributions@[i].conditions@.contains(c));
                }
                if listed.contains(c) {
                    assert(program.sampled_categorical_distributions@[j as int].conditions@
                        == listed);
                }
            }
            assert forall|c: i32| c > 0 implies #[trigger] row_bit(words@, symbol_bit(c as int))
                == categorical_has(program, m, c) by {
                assert(row_bit(before, symbol_bit(c as int)) == categorical_has(
                    program,
                    j as int,
                    c,
                ));
                assert(categorical_has(program, m, c) == (categorical_has(program, j as int, c)
                    || listed.contains(c)));
            }
            assert forall|c: i32| #[trigger] categorical_has(program, m, c) implies !outside(
                c,
                len,
            ) by {
                assert(categorical_has(program, m, c) == (categorical_has(program, j as int, c)
                    || listed.contains(c)));
            }
        }
        j += 1;
    }
    let ghost marked = words@;
    match mark_exogenous_conditions(&mut words, &program.sampled_bernoulli_conditions) {
        Ok(_) => {},
        Err(e) => {
            proof {
                let c = choose|c: i32| #[trigger]
                    program.sampled_bernoulli_conditions@.contains(c) && outside(c, len);
                assert(is_exogenous(program, c) && outside(c, len));
            }
            return Err(e);
        },
    }
    let ghost both = words@;
    match mark_skip_conditions(&mut words, program) {
        Ok(_) => {},
        Err(e) => {
            proof {
                let c = choose|c: i32| #[trigger] is_skip_condition(program, c) && outside(c, len);
                assert(is_exogenous(program, c) && outside(c, len));
            }
            return Err(e);
        },
    }
    proof {
        assert forall|c: i32| c > 0 implies #[trigger] row_bit(words@, symbol_bit(c as int))
            == is_exogenous(program, c) by {
            assert(row_bit(both, symbol_bit(c as int)) == (row_bit(marked, symbol_bit(c as int))
                || program.sampled_bernoulli_conditions@.contains(c)));
        }
    }
    Ok(words)
}

// ---------------------------------------------------------------------------
// Draws
// ---------------------------------------------------------------------------
/// The positions that geometric gaps select out of `total`, from `draw` on.
pub open spec fn skips_from(gaps: Seq<u64>, total: int, draw: int) -> Seq<u64>
    decreases gaps.len(),
{
    if gaps.len() == 0 || gaps[0] >= total - draw {
        Seq::empty()
    } else {
        seq![(draw + gaps[0]) as u64] + skips_from(gaps.skip(1), total, draw + gaps[0] + 1)
    }
}

pub proof fn lemma_skips_bounded(gaps: Seq<u64>, total: int, draw: int)
    requires
        0 <= draw <= total <= u64::MAX,
    ensures
        forall|k: int|
            0 <= k < skips_from(gaps, total, draw).len() ==> draw <= #[trigger] skips_from(
                gaps,
                total,
                draw,
            )[k] < total,
    decreases gaps.len(),
{
    if gaps.len() == 0 || gaps[0] >= total - draw {
    } else {
        let next = draw + gaps[0] + 1;
        lemma_skips_bounded(gaps.skip(1), total, next);
        let rest = skips_from(gaps.skip(1), total, next);
        let all = skips_from(gaps, total, draw);
        assert forall|k: int| 0 <= k < all.len() implies draw <= #[trigger] all[k] < total by {
            if k > 0 {
                assert(all[k] == rest[k - 1]);
            }
        }
    }
}

/// The position that a gap selects, unless it runs past the end.
pub fn skip_position(draw: u64, gap: u64, total: u64) -> (r: Option<u64>)
    requires
        draw <= total,
    ensures
        r == if gap >= total - draw {
            None
        } else {
            Some((draw + gap) as u64)
        },
{
    if gap >= total - draw {
        None
    } else {
        Some(draw + gap)
    }
}

/// The positions that a list of geometric gaps selects.
pub fn skip_positions(gaps: &Vec<u64>, total: u64) -> (r: Vec<u64>)
    ensures
        r@ == skips_from(gaps@, total as int, 0),
        forall|k: int| 0 <= k < r@.len() ==> #[trigger] r@[k] < total,
{
    let mut out: Vec<u64> = Vec::new();
    let mut draw: u64 = 0;
    let mut k: usize = 0;
    assert(gaps@.skip(0) =~= gaps@);
    assert(out@ + skips_from(gaps@, total as int, 0) =~= skips_from(gaps@, total as int, 0));
    proof {
        lemma_skips_bounded(gaps@, total as int, 0);
    }
    while k < gaps.len()
        invariant
            k <= gaps@.len(),
            draw <= total,
            out@ + skips_from(gaps@.skip(k as int), total as int, draw as int) == skips_from(
                gaps@,
                total as int,
                0,
            ),
            forall|k: int|
                0 <= k < skips_from(gaps@, total as int, 0).len() ==> #[trigger] skips_from(
                    gaps@,
                    total as int,
                    0,
                )[k] < total,
        decreases gaps@.len() - k,
    {
        let ghost rest = gaps@.skip(k as int);
        match skip_position(draw, gaps[k], total) {
            None => {
                assert(out@ + skips_from(rest, total as int, draw as int) =~= out@);
                return out;
            },
            Some(position) => {
                let ghost before = out@;
                out.push(position);
                proof {
                    assert(rest.skip(1) =~= gaps@.skip(k + 1));
                    assert(out@ + skips_from(rest.skip(1), total as int, position + 1) =~= before
                        + skips_from(rest, total as int, draw as int));
                }
                draw = position + 1;
            },
        }
        k += 1;
    }
    assert(out@ + skips_from(gaps@.skip(k as int), total as int, draw as int) =~= out@);
    out
}

/// The coins behind one biased row.
#[derive(Clone, Debug, PartialEq, Eq)]
pub enum BiasedCoins {
    /// No shot.
    Never,
    /// Every shot.
    Always,
    /// One fair coin per shot, a word of shots at a time.
    Fair(Vec<u64>),
    /// Geometric gaps between the hits.
    Skip(Vec<u64>),
    /// Eight coins per shot against an eight-bit probability, then geometric gaps
    /// for what the eight bits leave over.
    Binary { top_bits: u64, coins: Vec<u64>, gaps: Vec<u64> },
}

/// The draws of one biased row; `invert` samples the complement.
#[derive(Clone, Debug, PartialEq, Eq)]
pub struct BiasedDraw {
    pub invert: bool,
    pub coins: BiasedCoins,
}

/// The first head among the coins of one lane decides: digit `b` of `top_bits`
/// when coin `7 - b` comes up.
pub open spec fn first_head(top_bits: u64, coins: Seq<u64>, base: int, lane: int, b: int) -> bool
    decreases b + 1,
{
    if b < 0 {
        false
    } else if word_bit(coins[base + 7 - b], lane) {
        word_bit(top_bits, b)
    } else {
        first_head(top_bits, coins, base, lane, b - 1)
    }
}

/// The biased bit of shot `i` before inversion.
pub open spec fn coin_bit(coins: BiasedCoins, shots: int, i: int) -> bool {
    match coins {
        BiasedCoins::Never => false,
        BiasedCoins::Always => true,
        BiasedCoins::Fair(words) => row_bit(words@, i),
        BiasedCoins::Skip(gaps) => skips_from(gaps@, shots, 0).contains(i as u64),
        BiasedCoins::Binary { top_bits, coins, gaps } => (word_bit(coins@[8 * (i / 64)], i % 64)
            && first_head(top_bits, coins@, 8 * (i / 64), i % 64, 6)) || skips_from(
            gaps@,
            shots,
            0,
        ).contains(i as u64),
    }
}

/// The biased bit of shot `i`; bits past the last shot are clear.
pub open spec fn biased_bit(draw: BiasedDraw, shots: int, i: int) -> bool {
    0 <= i < shots && (coin_bit(draw.coins, shots, i) != draw.invert)
}

/// There are enough coins for `words` words of shots.
pub open spec fn enough_coins(draw: BiasedDraw, words: int) -> bool {
    match draw.coins {
        BiasedCoins::Fair(list) => list@.len() >= words,
        BiasedCoins::Binary { top_bits, coins, gaps } => coins@.len() >= 8 * words,
        _ => true,
    }
}

/// Sets the selected bits of a row.
fn or_low_probability_bits_packed(row: &mut Vec<u64>, gaps: &Vec<u64>, shots: usize)
    requires
        old(row)@.len() == words_for_bits(shots as int),
    ensures
        final(row)@.len() == old(row)@.len(),
        forall|i: int|
            0 <= i < 64 * old(row)@.len() ==> #[trigger] row_bit(final(row)@, i) == (row_bit(
                old(row)@,
                i,
            ) || skips_from(gaps@, shots as int, 0).contains(i as u64)),
{
    let positions: Vec<u64> = skip_positions(gaps, shots as u64);
    let ghost start = row@;
    let mut k: usize = 0;
    assert(positions@.take(0) =~= Seq::<u64>::empty());
    while k < positions.len()
        invariant
            k <= positions@.len(),
            row@.len() == start.len(),
            start.len() == words_for_bits(shots as int),
            forall|k: int| 0 <= k < positions@.len() ==> #[trigger] positions@[k] < shots,
            forall|i: int|
                0 <= i < 64 * start.len() ==> #[trigger] row_bit(row@, i) == (row_bit(start, i)
                    || positions@.take(k as int).contains(i as u64)),
        decreases positions@.len() - k,
    {
        let position: u64 = positions[k];
        assert(positions@[k as int] < shots);
        let word: usize = (position / 64) as usize;
        let bit: u64 = position % 64;
        let ghost before = row@;
        row[word] = row[word] | (1u64 << bit);
        proof {
            let taken = positions@.take(k + 1);
            assert forall|i: int| 0 <= i < 64 * start.len() implies #[trigger] row_bit(row@, i) == (
            row_bit(start, i) || taken.contains(i as u64)) by {
                lemma_set_bit(before, word as int, bit, i);
                assert(row_bit(before, i) == (row_bit(start, i) || positions@.take(
                    k as int,
                ).contains(i as u64)));
                if positions@.take(k as int).contains(i as u64) {
                    let j = choose|j: int| 0 <= j < k && positions@.take(k as int)[j] == i as u64;
                    assert(taken[j] == i as u64);
                }
                if i == position {
                    assert(taken[k as int] == i as u64);
                }
                if taken.contains(i as u64) {
                    let j = choose|j: int| 0 <= j < k + 1 && taken[j] == i as u64;
                    if j < k {
                        assert(positions@.take(k as int)[j] == i as u64);
                    }
                }
            }
        }
        k += 1;
    }
    assert(positions@.take(k as int) =~= positions@);
}

proof fn lemma_binary_step(top_bits: u64, coins: Seq<u64>, base: int, lane: int, step: int)
    requires
        1 <= step < 8,
        0 <= lane < 64,
    ensures
        first_head(top_bits, coins, base, lane, 7 - step) == if word_bit(coins[base + step], lane) {
            word_bit(top_bits, 7 - step)
        } else {
            first_head(top_bits, coins, base, lane, 7 - (step + 1))
        },
{
    assert(base + 7 - (7 - step) == base + step);
    assert(7 - step - 1 == 7 - (step + 1));
}

/// One word of the binary scheme.
fn binary_word(top_bits: u64, coins: &Vec<u64>, base: usize) -> (r: u64)
    requires
        base + 8 <= coins@.len(),
    ensures
        forall|lane: int|
            0 <= lane < 64 ==> #[trigger] word_bit(r, lane) == (word_bit(
                coins@[base as int],
                lane,
            ) && first_head(top_bits, coins@, base as int, lane, 6)),
{
    let len: usize = coins.len();
    let mut alive: u64 = coins[base];
    let mut result: u64 = 0;
    let mut step: usize = 1;
    while step < 8
        invariant
            1 <= step <= 8,
            len == coins@.len(),
            base + 8 <= len,
            forall|lane: int|
                0 <= lane < 64 ==> (#[trigger] word_bit(result, lane) || (word_bit(alive, lane)
                    && first_head(top_bits, coins@, base as int, lane, 7 - step))) == (word_bit(
                    coins@[base as int],
                    lane,
                ) && first_head(top_bits, coins@, base as int, lane, 6)),
        decreases 8 - step,
    {
        let shoot: u64 = coins[base + step];
        let bit: u64 = (7 - step) as u64;
        let ghost result0 = result;
        let ghost alive0 = alive;
        let heads: bool = (top_bits >> bit) & 1 == 1;
        if heads {
            result = result | (shoot & alive);
        }
        alive = alive & !shoot;
        step += 1;
        proof {
            assert forall|lane: int| 0 <= lane < 64 implies (#[trigger] word_bit(result, lane) || (
            word_bit(alive, lane) && first_head(top_bits, coins@, base as int, lane, 7 - step)))
                == (word_bit(coins@[base as int], lane) && first_head(
                top_bits,
                coins@,
                base as int,
                lane,
                6,
            )) by {
                assert(word_bit(result0, lane) == word_bit(result0, lane));
                lemma_binary_step(top_bits, coins@, base as int, lane, step - 1);
                assert(heads == word_bit(top_bits, 7 - (step - 1)));
                assert(word_bit(alive0 & !shoot, lane) == (word_bit(alive0, lane) && !word_bit(
                    shoot,
                    lane,
                )));
                if heads {
                    assert(word_bit(result0 | (shoot & alive0), lane) == (word_bit(result0, lane) || (
                    word_bit(shoot, lane) && word_bit(alive0, lane))));
                }
            }
        }
    }
    result
}

/// Fills one packed row with biased bits.
pub fn generate_packed_biased_bits(draw: &BiasedDraw, shots: usize) -> (r: Vec<u64>)
    requires
        enough_coins(*draw, words_for_bits(shots as int)),
    ensures
        r@.len() == words_for_bits(shots as int),
        forall|i: int|
            0 <= i < 64 * r@.len() ==> #[trigger] row_bit(r@, i) == biased_bit(
                *draw,
                shots as int,
                i,
            ),
{
    let words: usize = packed_shot_word_count(shots);
    let mut row: Vec<u64> = zero_words(words);
    match &draw.coins {
        BiasedCoins::Never => {},
        BiasedCoins::Always => {
            let mut k: usize = 0;
            while k < words
                invariant
                    k <= words,
                    row@.len() == words,
                    forall|j: int| 0 <= j < k ==> #[trigger] row@[j] == 0xffff_ffff_ffff_ffffu64,
                decreases words - k,
            {
                row[k] = 0xffff_ffff_ffff_ffffu64;
                k += 1;
            }
        },
        BiasedCoins::Fair(list) => {
            let mut k: usize = 0;
            while k < words
                invariant
                    k <= words,
                    row@.len() == words,
                    list@.len() >= words,
                    forall|j: int| 0 <= j < k ==> #[trigger] row@[j] == list@[j],
                decreases words - k,
            {
                row[k] = list[k];
                k += 1;
            }
        },
        BiasedCoins::Skip(gaps) => {
            or_low_probability_bits_packed(&mut row, gaps, shots);
        },
        BiasedCoins::Binary { top_bits, coins, gaps } => {
            let mut k: usize = 0;
            let len: usize = coins.len();
            while k < words
                invariant
                    k <= words,
                    row@.len() == words,
                    len == coins@.len(),
                    len >= 8 * words,
                    forall|j: int, lane: int|
                        0 <= j < k && 0 <= lane < 64 ==> #[trigger] word_bit(row@[j], lane) == (
                        word_bit(coins@[8 * j], lane) && first_head(
                            *top_bits,
                            coins@,
                            8 * j,
                            lane,
                            6,
                        )),
                decreases words - k,
            {
                let w: u64 = binary_word(*top_bits, coins, 8 * k);
                row[k] = w;
                k += 1;
            }
            or_low_probability_bits_packed(&mut row, gaps, shots);
        },
    }
    let ghost filled = row@;
    assert forall|i: int| 0 <= i < 64 * filled.len() implies #[trigger] row_bit(filled, i) == coin_bit(
        draw.coins,
        shots as int,
        i,
    ) by {}
    let mut k: usize = 0;
    while k < words
        invariant
            k <= words,
            row@.len() == words,
            filled.len() == words,
            forall|j: int| k <= j < words ==> #[trigger] row@[j] == filled[j],
            forall|j: int, lane: int|
                0 <= j < k && 0 <= lane < 64 ==> #[trigger] word_bit(row@[j], lane) == (64 * j + lane
                    < shots && (word_bit(filled[j], lane) != draw.invert)),
        decreases words - k,
    {
        let mask: u64 = live_word_mask_for_shots(shots, k);
        let w: u64 = if draw.invert {
            !row[k]
        } else {
            row[k]
        };
        row[k] = w & mask;
        k += 1;
    }
    assert forall|i: int| 0 <= i < 64 * row@.len() implies #[trigger] row_bit(row@, i) == biased_bit(
        *draw,
        shots as int,
        i,
    ) by {
        assert(row_bit(filled, i) == coin_bit(draw.coins, shots as int, i));
        assert(64 * (i / 64) + i % 64 == i);
        assert(word_bit(row@[i / 64], i % 64) == (64 * (i / 64) + i % 64 < shots && (word_bit(
            filled[i / 64],
            i % 64,
        ) != draw.invert)));
    }
    row
}

// ---------------------------------------------------------------------------
// The packed table
// ---------------------------------------------------------------------------
/// Symbol-major packed table: condition `c` has its shots at
/// `value_words[(c - 1) * shot_words..c * shot_words]`, unless it is kept sparse,
/// in which case that row is unspecified and its hits toggle the bits.
#[derive(Clone, Debug, Default)]
pub struct PackedPresampledExogenous {
    pub nshots: usize,
    pub nsymbols: usize,
    pub shot_words: usize,
    pub exogenous_assigned_words: Vec<u64>,
    pub value_words: Vec<u64>,
    /// Conditions kept sparse in the current resample.
    pub sparse_condition_words: Vec<u64>,
    /// Every geometric-skip condition.
    pub sparse_condition_template_words: Vec<u64>,
    /// Condition `c` has its hits at
    /// `sparse_hit_shots[sparse_hit_offsets[c - 1]..sparse_hit_offsets[c]]`.
    pub sparse_hit_offsets: Vec<usize>,
    /// Hit shots; duplicates toggle back off.
    pub sparse_hit_shots: Vec<u32>,
}

impl PackedPresampledExogenous {
    /// An empty table.
    pub fn new() -> (r: Self)
        ensures
            r.nshots == 0,
            r.nsymbols == 0,
            r.shot_words == 0,
            r.exogenous_assigned_words@.len() == 0,
            r.value_words@.len() == 0,
            r.sparse_condition_words@.len() == 0,
            r.sparse_condition_template_words@.len() == 0,
            r.sparse_hit_offsets@.len() == 0,
            r.sparse_hit_shots@.len() == 0,
    {
        PackedPresampledExogenous {
            nshots: 0,
            nsymbols: 0,
            shot_words: 0,
            exogenous_assigned_words: Vec::new(),
            value_words: Vec::new(),
            sparse_condition_words: Vec::new(),
            sparse_condition_template_words: Vec::new(),
            sparse_hit_offsets: Vec::new(),
            sparse_hit_shots: Vec::new(),
        }
    }

    /// Whether the condition is kept sparse.
    pub open spec fn is_sparse(&self, c: i32) -> bool {
        row_bit(self.sparse_condition_words@, symbol_bit(c as int))
    }

    /// The hits of a condition.
    pub open spec fn hits_of(&self, c: i32) -> Seq<u32> {
        self.sparse_hit_shots@.subrange(
            self.sparse_hit_offsets@[c - 1] as int,
            self.sparse_hit_offsets@[c as int] as int,
        )
    }

    /// The table is filled for its shots.
    pub open spec fn filled(&self) -> bool {
        &&& self.value_words@.len() == self.nsymbols * self.shot_words
        &&& self.sparse_hit_offsets@.len() == self.nsymbols + 1
    }

    /// The hit index is in range.
    pub open spec fn wf(&self) -> bool {
        &&& self.shot_words == words_for_bits(self.nshots as int)
        &&& self.filled() ==> {
            &&& self.sparse_hit_offsets@[0] == 0
            &&& self.sparse_hit_offsets@[self.nsymbols as int] == self.sparse_hit_shots@.len()
            &&& forall|r: int, q: int|
                0 <= r <= q <= self.nsymbols ==> self.sparse_hit_offsets@[r]
                    <= self.sparse_hit_offsets@[q]
            &&& forall|r: int|
                0 <= r <= self.nsymbols ==> #[trigger] self.sparse_hit_offsets@[r]
                    <= self.sparse_hit_shots@.len()
            &&& forall|k: int|
                0 <= k < self.sparse_hit_shots@.len() ==> #[trigger] self.sparse_hit_shots@[k]
                    < self.nshots
        }
    }

    /// The sampled value of a condition for one shot.
    pub open spec fn sample_bit(&self, c: i32, i: int) -> bool {
        if self.is_sparse(c) {
            shot_parity(self.hits_of(c), i)
        } else {
            plane_bit(self.value_words@, self.shot_words as int, c - 1, i)
        }
    }

    /// The bitsets were prepared for the program.
    pub open spec fn prepared_for(&self, program: &FactoredInstructionProgram) -> bool {
        &&& self.nsymbols == program.nsymbols
        &&& self.exogenous_assigned_words@.len() == words_for_bits(program.nsymbols as int)
        &&& self.sparse_condition_template_words@.len() == words_for_bits(program.nsymbols as int)
        &&& marks(self.exogenous_assigned_words@, |c: i32| is_exogenous(program, c))
        &&& marks(self.sparse_condition_template_words@, |c: i32| is_skip_condition(program, c))
        &&& no_late_bit(self.sparse_condition_template_words@)
    }

    /// Whether the condition is kept sparse in this resample.
    pub fn is_sparse_condition(&self, condition: i32) -> (r: bool)
        requires
            condition > 0,
        ensures
            r == self.is_sparse(condition),
    {
        let word: usize = symbol_word_index(condition);
        if word >= self.sparse_condition_words.len() {
            return false;
        }
        packed_bit(self.sparse_condition_words.as_slice(), (condition - 1) as usize)
    }

    /// Hit shots of a sparse condition in this resample.
    pub fn sparse_condition_hits(&self, condition: i32) -> (r: &[u32])
        requires
            self.wf(),
            self.filled(),
            0 < condition <= self.nsymbols,
        ensures
            r@ == self.hits_of(condition),
    {
        let index: usize = (condition - 1) as usize;
        let start: usize = self.sparse_hit_offsets[index];
        let end: usize = self.sparse_hit_offsets[index + 1];
        vstd::slice::slice_subrange(self.sparse_hit_shots.as_slice(), start, end)
    }
}

/// The bits a family of conditions was given.
#[derive(Clone, Debug)]
pub enum FamilyBits {
    /// Toggles of the family's conditions.
    Hits(Vec<Hit>),
    /// One packed row.
    Row(Vec<u64>),
}

/// Conditions that were drawn together.
#[derive(Clone, Debug)]
pub struct Family {
    pub conditions: Vec<i32>,
    /// The conditions are drawn by geometric skips.
    pub skip: bool,
    /// The expected hits call for dense rows.
    pub dense: bool,
    pub bits: FamilyBits,
}

/// The value the family gives to a condition for one shot.
pub open spec fn family_bit(family: Family, c: i32, i: int) -> bool {
    match family.bits {
        FamilyBits::Hits(hits) => hit_parity(hits@, c - 1, i),
        FamilyBits::Row(row) => row_bit(row@, i),
    }
}

pub open spec fn family_wf(family: Family, nsymbols: int, shots: int) -> bool {
    &&& forall|k: int|
        0 <= k < family.conditions@.len() ==> 0 < #[trigger] family.conditions@[k] <= nsymbols
    &&& match family.bits {
        FamilyBits::Hits(hits) => forall|k: int|
            0 <= k < hits@.len() ==> (#[trigger] hits@[k]).shot < shots && hits@[k].row < nsymbols
                && family.conditions@.contains(hit_condition(hits@[k])),
        FamilyBits::Row(row) => !family.skip && row@.len() == words_for_bits(shots),
    }
}

/// The condition a hit toggles.
pub open spec fn hit_condition(hit: Hit) -> i32 {
    (hit.row + 1) as i32
}

/// No condition belongs to two families.
pub open spec fn families_disjoint(families: Seq<Family>) -> bool {
    forall|j: int, k: int, c: i32|
        0 <= j < k < families.len() && #[trigger] families[j].conditions@.contains(c)
            ==> !#[trigger] families[k].conditions@.contains(c)
}

/// XORs hits into dense rows.
fn xor_hits_dense(value_words: &mut Vec<u64>, shot_words: usize, nsymbols: usize, hits: &Vec<Hit>)
    requires
        old(value_words)@.len() == nsymbols * shot_words,
        forall|k: int|
            0 <= k < hits@.len() ==> (#[trigger] hits@[k]).row < nsymbols && hits@[k].shot < 64
                * shot_words,
    ensures
        final(value_words)@.len() == old(value_words)@.len(),
        forall|p: int, i: int|
            0 <= p < nsymbols && 0 <= i < 64 * shot_words ==> #[trigger] plane_bit(
                final(value_words)@,
                shot_words as int,
                p,
                i,
            ) == (plane_bit(old(value_words)@, shot_words as int, p, i) != hit_parity(hits@, p, i)),
{
    let ghost start = value_words@;
    let ghost sw = shot_words as int;
    let ghost planes = nsymbols as int;
    let mut k: usize = 0;
    assert(hits@.take(0) =~= Seq::<Hit>::empty());
    let len: usize = value_words.len();
    while k < hits.len()
        invariant
            k <= hits@.len(),
            sw == shot_words,
            planes == nsymbols,
            len == value_words@.len(),
            value_words@.len() == planes * sw,
            forall|k: int|
                0 <= k < hits@.len() ==> (#[trigger] hits@[k]).row < nsymbols && hits@[k].shot < 64
                    * shot_words,
            forall|p: int, i: int|
                0 <= p < planes && 0 <= i < 64 * sw ==> #[trigger] plane_bit(value_words@, sw, p, i)
                    == (plane_bit(start, sw, p, i) != hit_parity(hits@.take(k as int), p, i)),
        decreases hits@.len() - k,
    {
        let hit: Hit = hits[k];
        assert(hits@[k as int].row < nsymbols);
        let word: usize = (hit.shot / 64) as usize;
        let lane: u64 = (hit.shot % 64) as u64;
        let ghost before = value_words@;
        proof {
            lemma_plane_index(sw, planes, hit.row as int, word as int);
        }
        let at: usize = plane_offset(shot_words, hit.row as usize, word);
        let w: u64 = value_words[at] ^ (1u64 << lane);
        value_words[at] = w;
        proof {
            let taken = hits@.take(k + 1);
            assert(taken.drop_last() =~= hits@.take(k as int));
            assert forall|p: int, i: int| 0 <= p < planes && 0 <= i < 64 * sw implies #[trigger] plane_bit(
                value_words@,
                sw,
                p,
                i,
            ) == (plane_bit(start, sw, p, i) != hit_parity(taken, p, i)) by {
                lemma_plane_update(before, sw, planes, hit.row as int, word as int, w, p, i);
                assert(plane_bit(before, sw, p, i) == (plane_bit(start, sw, p, i) != hit_parity(
                    hits@.take(k as int),
                    p,
                    i,
                )));
                assert(taken.last() == hit);
                if p == hit.row && i / 64 == word {
                    assert(word_bit(w, i % 64) == (word_bit(before[at as int], i % 64) != word_bit(
                        1u64 << lane,
                        i % 64,
                    )));
                }
            }
        }
        k += 1;
    }
    assert(hits@.take(k as int) =~= hits@);
}

/// Overwrites one dense row.
fn write_packed_row(
    value_words: &mut Vec<u64>,
    shot_words: usize,
    nsymbols: usize,
    condition: i32,
    row: &Vec<u64>,
)
    requires
        old(value_words)@.len() == nsymbols * shot_words,
        0 < condition <= nsymbols,
        row@.len() == shot_words,
    ensures
        final(value_words)@.len() == old(value_words)@.len(),
        forall|p: int, i: int|
            0 <= p < nsymbols && 0 <= i < 64 * shot_words ==> #[trigger] plane_bit(
                final(value_words)@,
                shot_words as int,
                p,
                i,
            ) == if p == condition - 1 {
                row_bit(row@, i)
            } else {
                plane_bit(old(value_words)@, shot_words as int, p, i)
            },
{
    let ghost start = value_words@;
    let ghost sw = shot_words as int;
    let ghost planes = nsymbols as int;
    let plane: usize = (condition - 1) as usize;
    let mut word: usize = 0;
    let len: usize = value_words.len();
    while word < shot_words
        invariant
            word <= shot_words,
            sw == shot_words,
            planes == nsymbols,
            plane < planes,
            row@.len() == sw,
            len == value_words@.len(),
            value_words@.len() == planes * sw,
            forall|p: int, i: int|
                0 <= p < planes && 0 <= i < 64 * sw ==> #[trigger] plane_bit(value_words@, sw, p, i)
                    == if p == plane && i < 64 * word {
                    row_bit(row@, i)
                } else {
                    plane_bit(start, sw, p, i)
                },
        decreases shot_words - word,
    {
        let ghost before = value_words@;
        proof {
            lemma_plane_index(sw, planes, plane as int, word as int);
        }
        let at: usize = plane_offset(shot_words, plane, word);
        value_words[at] = row[word];
        proof {
            assert forall|p: int, i: int| 0 <= p < planes && 0 <= i < 64 * sw implies #[trigger] plane_bit(
                value_words@,
                sw,
                p,
                i,
            ) == if p == plane && i < 64 * (word + 1) {
                row_bit(row@, i)
            } else {
                plane_bit(start, sw, p, i)
            } by {
                lemma_plane_update(
                    before,
                    sw,
                    planes,
                    plane as int,
                    word as int,
                    row@[word as int],
                    p,
                    i,
                );
                assert(plane_bit(before, sw, p, i) == if p == plane && i < 64 * word {
                    row_bit(row@, i)
                } else {
                    plane_bit(start, sw, p, i)
                });
            }
        }
        word += 1;
    }
}

/// Zeroes dense rows ahead of a family that XORs into them.
fn zero_packed_rows(
    value_words: &mut Vec<u64>,
    shot_words: usize,
    nsymbols: usize,
    conditions: &Vec<i32>,
)
    requires
        old(value_words)@.len() == nsymbols * shot_words,
        forall|k: int|
            0 <= k < conditions@.len() ==> 0 < #[trigger] conditions@[k] <= nsymbols,
    ensures
        final(value_words)@.len() == old(value_words)@.len(),
        forall|c: i32, i: int|
            0 < c <= nsymbols && 0 <= i < 64 * shot_words ==> #[trigger] plane_bit(
                final(value_words)@,
                shot_words as int,
                c - 1,
                i,
            ) == (!conditions@.contains(c) && plane_bit(
                old(value_words)@,
                shot_words as int,
                c - 1,
                i,
            )),
{
    let ghost start = value_words@;
    let ghost sw = shot_words as int;
    let zeros: Vec<u64> = zero_words(shot_words);
    let mut k: usize = 0;
    while k < conditions.len()
        invariant
            k <= conditions@.len(),
            sw == shot_words,
            zeros@.len() == sw,
            forall|i: int| !#[trigger] row_bit(zeros@, i),
            value_words@.len() == start.len(),
            start.len() == nsymbols * shot_words,
            forall|k: int|
                0 <= k < conditions@.len() ==> 0 < #[trigger] conditions@[k] <= nsymbols,
            forall|c: i32, i: int|
                0 < c <= nsymbols && 0 <= i < 64 * sw ==> #[trigger] plane_bit(
                    value_words@,
                    sw,
                    c - 1,
                    i,
                ) == (!conditions@.take(k as int).contains(c) && plane_bit(start, sw, c - 1, i)),
        decreases conditions@.len() - k,
    {
        let condition: i32 = conditions[k];
        assert(0 < conditions@[k as int] <= nsymbols);
        let ghost before = value_words@;
        write_packed_row(value_words, shot_words, nsymbols, condition, &zeros);
        proof {
            assert forall|c: i32, i: int|
                0 < c <= nsymbols && 0 <= i < 64 * sw implies #[trigger] plane_bit(
                value_words@,
                sw,
                c - 1,
                i,
            ) == (!conditions@.take(k + 1).contains(c) && plane_bit(start, sw, c - 1, i)) by {
                lemma_take_contains(conditions@, k as int, c);
                assert(plane_bit(before, sw, c - 1, i) == (!conditions@.take(k as int).contains(c)
                    && plane_bit(start, sw, c - 1, i)));
            }
        }
        k += 1;
    }
    assert(conditions@.take(k as int) =~= conditions@);
}

/// Takes conditions out of a bitset.
fn clear_conditions(words: &mut Vec<u64>, conditions: &Vec<i32>)
    requires
        forall|k: int|
            0 <= k < conditions@.len() ==> 0 < #[trigger] conditions@[k] <= 64 * old(words)@.len(),
    ensures
        final(words)@.len() == old(words)@.len(),
        forall|c: i32|
            c > 0 ==> #[trigger] row_bit(final(words)@, symbol_bit(c as int)) == (row_bit(
                old(words)@,
                symbol_bit(c as int),
            ) && !conditions@.contains(c)),
        no_late_bit(old(words)@) ==> no_late_bit(final(words)@),
{
    let ghost start = words@;
    let mut k: usize = 0;
    while k < conditions.len()
        invariant
            k <= conditions@.len(),
            words@.len() == start.len(),
            forall|k: int|
                0 <= k < conditions@.len() ==> 0 < #[trigger] conditions@[k] <= 64 * start.len(),
            forall|c: i32|
                c > 0 ==> #[trigger] row_bit(words@, symbol_bit(c as int)) == (row_bit(
                    start,
                    symbol_bit(c as int),
                ) && !conditions@.take(k as int).contains(c)),
            no_late_bit(start) ==> no_late_bit(words@),
        decreases conditions@.len() - k,
    {
        let condition: i32 = conditions[k];
        assert(0 < conditions@[k as int] <= 64 * start.len());
        let ghost before = words@;
        let word: usize = symbol_word_index(condition);
        let mask: u64 = symbol_bit_mask(condition);
        words[word] = words[word] & !mask;
        proof {
            assert(no_late_bit(before) ==> no_late_bit(words@)) by {
                reveal(no_late_bit);
                assert forall|b: int| no_late_bit(before) && b >= i32::MAX implies !(
                #[trigger] row_bit(words@, b)) by {
                    lemma_clear_bit(
                        before,
                        word as int,
                        (symbol_bit(condition as int) % 64) as u64,
                        b,
                    );
                }
            }
            assert forall|c: i32| c > 0 implies #[trigger] row_bit(words@, symbol_bit(c as int)) == (
            row_bit(start, symbol_bit(c as int)) && !conditions@.take(k + 1).contains(c)) by {
                lemma_clear_bit(
                    before,
                    word as int,
                    (symbol_bit(condition as int) % 64) as u64,
                    symbol_bit(c as int),
                );
                lemma_take_contains(conditions@, k as int, c);
                assert(row_bit(before, symbol_bit(c as int)) == (row_bit(
                    start,
                    symbol_bit(c as int),
                ) && !conditions@.take(k as int).contains(c)));
            }
        }
        k += 1;
    }
    assert(conditions@.take(k as int) =~= conditions@);
}

/// Below this table size the whole bit-plane stays cache-resident, so dense rows
/// win regardless of density.
pub const SPARSE_MIN_TABLE_BYTES: usize = 1048576;

/// The family's conditions are kept as hits.
pub open spec fn kept_sparse(family: Family, dense_table: bool) -> bool {
    !dense_table && family.skip && !family.dense
}

/// The hits of the family.
pub open spec fn hits_of_family(family: Family) -> Seq<Hit> {
    match family.bits {
        FamilyBits::Hits(hits) => hits@,
        FamilyBits::Row(_) => Seq::empty(),
    }
}

/// The hits of the first `n` families, as far as they are kept as hits, in order.
pub open spec fn collected(families: Seq<Family>, dense_table: bool, n: int) -> Seq<Hit>
    decreases n,
{
    if n <= 0 {
        Seq::empty()
    } else if kept_sparse(families[n - 1], dense_table) {
        collected(families, dense_table, n - 1) + hits_of_family(families[n - 1])
    } else {
        collected(families, dense_table, n - 1)
    }
}

/// Among the collected hits, the row of a condition has the hits of its family.
proof fn lemma_collected_row(
    families: Seq<Family>,
    dense_table: bool,
    n: int,
    nsymbols: int,
    shots: int,
    j: int,
    c: i32,
)
    requires
        families_disjoint(families),
        forall|k: int| 0 <= k < families.len() ==> family_wf(#[trigger] families[k], nsymbols, shots),
        0 <= n <= families.len(),
        0 <= j < families.len(),
        families[j].conditions@.contains(c),
        c > 0,
    ensures
        row_shots(collected(families, dense_table, n), c - 1) == if j < n && kept_sparse(
            families[j],
            dense_table,
        ) {
            row_shots(hits_of_family(families[j]), c - 1)
        } else {
            Seq::empty()
        },
    decreases n,
{
    if n > 0 {
        lemma_collected_row(families, dense_table, n - 1, nsymbols, shots, j, c);
        let family = families[n - 1];
        let hits = hits_of_family(family);
        assert(family_wf(family, nsymbols, shots));
        if kept_sparse(family, dense_table) {
            lemma_row_shots_concat(collected(families, dense_table, n - 1), hits, c - 1);
            if n - 1 != j {
                assert(!family.conditions@.contains(c)) by {
                    if n - 1 < j && families[n - 1].conditions@.contains(c) {
                        assert(!families[j].conditions@.contains(c));
                    }
                }
                assert forall|k: int| 0 <= k < hits.len() implies (#[trigger] hits[k]).row != c - 1 by {
                    assert(family.conditions@.contains(hit_condition(hits[k])));
                }
                lemma_no_row_shots(hits, c - 1);
                let head = row_shots(collected(families, dense_table, n - 1), c - 1);
                assert(head + Seq::<u32>::empty() =~= head);
            } else {
                let own = row_shots(hits, c - 1);
                assert(Seq::<u32>::empty() + own =~= own);
            }
        }
    }
}

/// The table while families are being added.
struct Table {
    values: Vec<u64>,
    sparse: Vec<u64>,
    hits: Vec<Hit>,
}

impl Table {
    /// The value the table gives to a condition for one shot.
    spec fn bit(&self, sw: int, c: i32, i: int) -> bool {
        if row_bit(self.sparse@, symbol_bit(c as int)) {
            hit_parity(self.hits@, c - 1, i)
        } else {
            plane_bit(self.values@, sw, c - 1, i)
        }
    }

    spec fn shaped(&self, nsymbols: int, sw: int, shots: int) -> bool {
        &&& self.values@.len() == nsymbols * sw
        &&& self.sparse@.len() == words_for_bits(nsymbols)
        &&& forall|k: int|
            0 <= k < self.hits@.len() ==> (#[trigger] self.hits@[k]).row < nsymbols
                && self.hits@[k].shot < shots
    }

    /// The family is still to come: its rows are untouched.
    spec fn awaits(&self, family: Family, sw: int, dense_table: bool) -> bool {
        &&& forall|c: i32| #[trigger]
            family.conditions@.contains(c) ==> row_bit(self.sparse@, symbol_bit(c as int)) == (
            family.skip && !dense_table)
        &&& forall|c: i32, i: int| #[trigger]
            family.conditions@.contains(c) ==> !#[trigger] hit_parity(self.hits@, c - 1, i)
        &&& dense_table ==> forall|c: i32, i: int| #[trigger]
            family.conditions@.contains(c) ==> !#[trigger] plane_bit(self.values@, sw, c - 1, i)
    }

    /// The table gives the family's conditions their values.
    spec fn holds(&self, family: Family, sw: int) -> bool {
        forall|c: i32, i: int|
            family.conditions@.contains(c) && 0 <= i < 64 * sw ==> #[trigger] self.bit(sw, c, i)
                == family_bit(family, c, i)
    }
}

fn append_hits(out: &mut Vec<Hit>, hits: &Vec<Hit>)
    ensures
        final(out)@ == old(out)@ + hits@,
{
    let ghost start = out@;
    let mut k: usize = 0;
    assert(start + hits@.take(0) =~= start);
    while k < hits.len()
        invariant
            k <= hits@.len(),
            out@ == start + hits@.take(k as int),
        decreases hits@.len() - k,
    {
        out.push(hits[k]);
        assert(out@ =~= start + hits@.take(k + 1));
        k += 1;
    }
    assert(hits@.take(k as int) =~= hits@);
}

/// A family's hits do not touch other conditions.
proof fn lemma_foreign_hits(family: Family, hits: Seq<Hit>, c: i32, i: int)
    requires
        forall|k: int|
            0 <= k < hits.len() ==> family.conditions@.contains(
                hit_condition(#[trigger] hits[k]),
            ),
        !family.conditions@.contains(c),
        c > 0,
    ensures
        !hit_parity(hits, c - 1, i),
{
    assert forall|k: int| 0 <= k < hits.len() implies (#[trigger] hits[k]).row != c - 1 by {
        assert(family.conditions@.contains(hit_condition(hits[k])));
    }
    lemma_no_hits(hits, c - 1, i);
}

/// Adds one family to the table.
#[verifier::rlimit(40)]
fn add_family(
    table: &mut Table,
    family: &Family,
    nsymbols: usize,
    shot_words: usize,
    shots: usize,
    dense_table: bool,
)
    requires
        old(table).shaped(nsymbols as int, shot_words as int, shots as int),
        shot_words == words_for_bits(shots as int),
        nsymbols <= i32::MAX,
        family_wf(*family, nsymbols as int, shots as int),
        old(table).awaits(*family, shot_words as int, dense_table),
        family.bits is Row ==> family.conditions@.len() == 1,
    ensures
        final(table).shaped(nsymbols as int, shot_words as int, shots as int),
        final(table).holds(*family, shot_words as int),
        no_late_bit(old(table).sparse@) ==> no_late_bit(final(table).sparse@),
        forall|c: i32|
            0 < c && !family.conditions@.contains(c) ==> #[trigger] row_bit(
                final(table).sparse@,
                symbol_bit(c as int),
            ) == row_bit(old(table).sparse@, symbol_bit(c as int)),
        forall|c: i32| #[trigger]
            family.conditions@.contains(c) ==> row_bit(final(table).sparse@, symbol_bit(c as int))
                == kept_sparse(*family, dense_table),
        final(table).hits@ == if kept_sparse(*family, dense_table) {
            old(table).hits@ + hits_of_family(*family)
        } else {
            old(table).hits@
        },
        forall|c: i32, i: int|
            0 < c <= nsymbols && !family.conditions@.contains(c) ==> #[trigger] hit_parity(
                final(table).hits@,
                c - 1,
                i,
            ) == hit_parity(old(table).hits@, c - 1, i),
        forall|c: i32, i: int|
            0 < c <= nsymbols && !family.conditions@.contains(c) ==> #[trigger] plane_bit(
                final(table).values@,
                shot_words as int,
                c - 1,
                i,
            ) == plane_bit(old(table).values@, shot_words as int, c - 1, i),
{
    let ghost sw = shot_words as int;
    let ghost n = nsymbols as int;
    let ghost t0 = *table;
    proof {
        assert forall|k: int| 0 <= k < family.conditions@.len() implies 0
            < #[trigger] family.conditions@[k] <= 64 * table.sparse@.len() by {
            assert(0 < family.conditions@[k] <= n);
        }
        lemma_family_range(*family, n, shots as int);
    }
    if dense_table || !family.skip || family.dense {
        if !dense_table {
            zero_packed_rows(&mut table.values, shot_words, nsymbols, &family.conditions);
            if family.skip {
                clear_conditions(&mut table.sparse, &family.conditions);
            }
        }
        let ghost t1 = *table;
        match &family.bits {
            FamilyBits::Hits(hits) => {
                proof {
                    assert forall|k: int| 0 <= k < hits@.len() implies (#[trigger] hits@[k]).row < n
                        && hits@[k].shot < 64 * sw by {}
                }
                xor_hits_dense(&mut table.values, shot_words, nsymbols, hits);
                proof {
                    assert forall|c: i32, i: int|
                        0 < c <= n && !family.conditions@.contains(c) implies #[trigger] plane_bit(
                        table.values@,
                        sw,
                        c - 1,
                        i,
                    ) == plane_bit(t0.values@, sw, c - 1, i) by {
                        lemma_foreign_hits(*family, hits@, c, i);
                        if 0 <= i < 64 * sw {
                            assert(plane_bit(t1.values@, sw, c - 1, i) == plane_bit(
                                t0.values@,
                                sw,
                                c - 1,
                                i,
                            ));
                        }
                    }
                    assert forall|c: i32, i: int|
                        family.conditions@.contains(c) && 0 <= i < 64 * sw implies #[trigger] table.bit(
                        sw,
                        c,
                        i,
                    ) == family_bit(*family, c, i) by {
                        let j = choose|j: int| 0 <= j < family.conditions@.len()
                            && family.conditions@[j] == c;
                        assert(0 < family.conditions@[j] <= n);
                        assert(!row_bit(table.sparse@, symbol_bit(c as int)));
                        assert(!plane_bit(t1.values@, sw, c - 1, i));
                    }
                }
            },
            FamilyBits::Row(row) => {
                let condition: i32 = family.conditions[0];
                assert(0 < family.conditions@[0] <= n);
                write_packed_row(&mut table.values, shot_words, nsymbols, condition, row);
                proof {
                    assert forall|c: i32| #[trigger] family.conditions@.contains(c) == (c
                        == condition) by {
                        assert(family.conditions@[0] == condition);
                    }
                    assert forall|c: i32, i: int|
                        0 < c <= n && !family.conditions@.contains(c) implies #[trigger] plane_bit(
                        table.values@,
                        sw,
                        c - 1,
                        i,
                    ) == plane_bit(t0.values@, sw, c - 1, i) by {
                        if 0 <= i < 64 * sw {
                            assert(plane_bit(t1.values@, sw, c - 1, i) == plane_bit(
                                t0.values@,
                                sw,
                                c - 1,
                                i,
                            ));
                        }
                    }
                    assert forall|c: i32, i: int|
                        family.conditions@.contains(c) && 0 <= i < 64 * sw implies #[trigger] table.bit(
                        sw,
                        c,
                        i,
                    ) == family_bit(*family, c, i) by {
                        assert(family.conditions@.contains(c) == (c == condition));
                        assert(!row_bit(table.sparse@, symbol_bit(c as int)));
                    }
                }
            },
        }
    } else {
        match &family.bits {
            FamilyBits::Hits(hits) => {
                append_hits(&mut table.hits, hits);
                proof {
                    assert forall|k: int| 0 <= k < table.hits@.len() implies (
                    #[trigger] table.hits@[k]).row < n && table.hits@[k].shot < shots by {
                        if k >= t0.hits@.len() {
                            let h = hits@[k - t0.hits@.len()];
                            assert(table.hits@[k] == h);
                        } else {
                            assert(table.hits@[k] == t0.hits@[k]);
                        }
                    }
                    assert forall|c: i32, i: int|
                        0 < c <= n && !family.conditions@.contains(c) implies #[trigger] hit_parity(
                        table.hits@,
                        c - 1,
                        i,
                    ) == hit_parity(t0.hits@, c - 1, i) by {
                        lemma_hit_parity_concat(t0.hits@, hits@, c - 1, i);
                        lemma_foreign_hits(*family, hits@, c, i);
                    }
                    assert forall|c: i32, i: int|
                        family.conditions@.contains(c) && 0 <= i < 64 * sw implies #[trigger] table.bit(
                        sw,
                        c,
                        i,
                    ) == family_bit(*family, c, i) by {
                        lemma_hit_parity_concat(t0.hits@, hits@, c - 1, i);
                        assert(!hit_parity(t0.hits@, c - 1, i));
                        assert(row_bit(table.sparse@, symbol_bit(c as int)));
                    }
                }
            },
            FamilyBits::Row(_) => {
                assert(false);
            },
        }
    }
}

/// A family that stays out of another's way keeps its values.
proof fn lemma_keeps(
    before: Table,
    after: Table,
    added: Family,
    other: Family,
    n: int,
    sw: int,
    dense_table: bool,
)
    requires
        forall|c: i32| #[trigger] other.conditions@.contains(c) ==> 0 < c <= n
            && !added.conditions@.contains(c),
        forall|c: i32|
            0 < c <= n && !added.conditions@.contains(c) ==> #[trigger] row_bit(
                after.sparse@,
                symbol_bit(c as int),
            ) == row_bit(before.sparse@, symbol_bit(c as int)),
        forall|c: i32, i: int|
            0 < c <= n && !added.conditions@.contains(c) ==> #[trigger] hit_parity(
                after.hits@,
                c - 1,
                i,
            ) == hit_parity(before.hits@, c - 1, i),
        forall|c: i32, i: int|
            0 < c <= n && !added.conditions@.contains(c) ==> #[trigger] plane_bit(
                after.values@,
                sw,
                c - 1,
                i,
            ) == plane_bit(before.values@, sw, c - 1, i),
    ensures
        before.holds(other, sw) ==> after.holds(other, sw),
        before.awaits(other, sw, dense_table) ==> after.awaits(other, sw, dense_table),
{
    if before.holds(other, sw) {
        assert forall|c: i32, i: int|
            other.conditions@.contains(c) && 0 <= i < 64 * sw implies #[trigger] after.bit(sw, c, i)
            == family_bit(other, c, i) by {
            assert(before.bit(sw, c, i) == family_bit(other, c, i));
            assert(row_bit(after.sparse@, symbol_bit(c as int)) == row_bit(
                before.sparse@,
                symbol_bit(c as int),
            ));
            assert(hit_parity(after.hits@, c - 1, i) == hit_parity(before.hits@, c - 1, i));
            assert(plane_bit(after.values@, sw, c - 1, i) == plane_bit(
                before.values@,
                sw,
                c - 1,
                i,
            ));
        }
    }
    if before.awaits(other, sw, dense_table) {
        assert forall|c: i32| #[trigger] other.conditions@.contains(c) implies row_bit(
            after.sparse@,
            symbol_bit(c as int),
        ) == (other.skip && !dense_table) by {
            assert(row_bit(after.sparse@, symbol_bit(c as int)) == row_bit(
                before.sparse@,
                symbol_bit(c as int),
            ));
        }
    }
}

pub open spec fn families_wf(families: Seq<Family>, nsymbols: int, shots: int) -> bool {
    &&& families_disjoint(families)
    &&& forall|j: int|
        0 <= j < families.len() ==> family_wf(#[trigger] families[j], nsymbols, shots)
    &&& forall|j: int|
        0 <= j < families.len() ==> ((#[trigger] families[j]).bits is Row
            ==> families[j].conditions@.len() == 1)
}

/// The whole table stays below the size from which hits are kept sparse.
pub open spec fn small_table(nsymbols: int, shots: int) -> bool {
    nsymbols * words_for_bits(shots) * 8 <= SPARSE_MIN_TABLE_BYTES
}

/// Some family has the condition.
pub open spec fn some_family_has(families: Seq<Family>, c: i32) -> bool {
    exists|j: int| 0 <= j < families.len() && #[trigger] families[j].conditions@.contains(c)
}

/// Fills the table with the families' bits.
fn fill_table(
    samples: &mut PackedPresampledExogenous,
    shots: usize,
    families: &Vec<Family>,
)
    requires
        old(samples).nsymbols <= i32::MAX - 1,
        shots + 63 <= usize::MAX,
        old(samples).nsymbols * words_for_bits(shots as int) * 8 <= usize::MAX,
        old(samples).sparse_condition_template_words@.len() == words_for_bits(
            old(samples).nsymbols as int,
        ),
        families_wf(families@, old(samples).nsymbols as int, shots as int),
        forall|j: int, c: i32|
            0 <= j < families@.len() && #[trigger] families@[j].conditions@.contains(c) ==> row_bit(
                old(samples).sparse_condition_template_words@,
                symbol_bit(c as int),
            ) == families@[j].skip,
    ensures
        final(samples).nshots == shots,
        final(samples).nsymbols == old(samples).nsymbols,
        final(samples).exogenous_assigned_words@ == old(samples).exogenous_assigned_words@,
        final(samples).sparse_condition_template_words@ == old(samples).sparse_condition_template_words@,
        final(samples).wf(),
        final(samples).filled(),
        forall|j: int, c: i32, i: int|
            0 <= j < families@.len() && #[trigger] families@[j].conditions@.contains(c) && 0 <= i < 64
                * final(samples).shot_words ==> #[trigger] final(samples).sample_bit(c, i)
                == family_bit(families@[j], c, i),
        final(samples).sparse_condition_words@.len() == old(
            samples,
        ).sparse_condition_template_words@.len(),
        no_late_bit(old(samples).sparse_condition_template_words@) ==> no_late_bit(
            final(samples).sparse_condition_words@,
        ),
        forall|j: int, c: i32|
            0 <= j < families@.len() && #[trigger] families@[j].conditions@.contains(c)
                ==> final(samples).is_sparse(c) == kept_sparse(
                families@[j],
                small_table(old(samples).nsymbols as int, shots as int),
            ),
        forall|c: i32|
            0 < c && !some_family_has(families@, c) ==> #[trigger] final(samples).is_sparse(c) == (
            row_bit(old(samples).sparse_condition_template_words@, symbol_bit(c as int))
                && !small_table(old(samples).nsymbols as int, shots as int)),
        indexes(
            final(samples).sparse_hit_offsets@,
            final(samples).sparse_hit_shots@,
            old(samples).nsymbols as int,
            collected(
                families@,
                small_table(old(samples).nsymbols as int, shots as int),
                families@.len() as int,
            ),
        ),
{
    let nsymbols: usize = samples.nsymbols;
    let shot_words: usize = packed_shot_word_count(shots);
    let ghost n = nsymbols as int;
    let ghost sw = shot_words as int;
    assert(0 <= n * sw) by (nonlinear_arith)
        requires
            0 <= n,
            0 <= sw,
    ;
    let cells: usize = nsymbols * shot_words;
    let dense_table: bool = cells * 8 <= SPARSE_MIN_TABLE_BYTES;
    let sparse: Vec<u64> = if dense_table {
        zero_words(samples.sparse_condition_template_words.len())
    } else {
        copy_words(&samples.sparse_condition_template_words)
    };
    let mut table: Table = Table { values: zero_words(cells), sparse, hits: Vec::new() };
    let ghost first_sparse = table.sparse@;
    let mut j: usize = 0;
    assert(dense_table == small_table(n, shots as int));
    assert(table.hits@ =~= collected(families@, dense_table, 0));
    proof {
        assert forall|p: int, i: int| 0 <= p < n implies !#[trigger] plane_bit(
            table.values@,
            sw,
            p,
            i,
        ) by {
            if 0 <= i < 64 * sw {
                lemma_plane_index(sw, n, p, i / 64);
            }
        }
        assert forall|k: int| 0 <= k < families@.len() implies table.awaits(
            #[trigger] families@[k],
            sw,
            dense_table,
        ) by {
            lemma_family_range(families@[k], n, shots as int);
        }
    }
    while j < families.len()
        invariant
            j <= families@.len(),
            n == nsymbols,
            sw == shot_words,
            nsymbols <= i32::MAX - 1,
            shot_words == words_for_bits(shots as int),
            families_wf(families@, n, shots as int),
            table.shaped(n, sw, shots as int),
            forall|k: int|
                j <= k < families@.len() ==> table.awaits(#[trigger] families@[k], sw, dense_table),
            forall|k: int| 0 <= k < j ==> table.holds(#[trigger] families@[k], sw),
            table.sparse@.len() == first_sparse.len(),
            no_late_bit(old(samples).sparse_condition_template_words@) ==> no_late_bit(table.sparse@),
            table.hits@ == collected(families@, dense_table, j as int),
            forall|k: int, c: i32|
                0 <= k < j && #[trigger] families@[k].conditions@.contains(c) ==> row_bit(
                    table.sparse@,
                    symbol_bit(c as int),
                ) == kept_sparse(families@[k], dense_table),
            forall|c: i32|
                0 < c && !some_family_has(families@, c) ==> #[trigger] row_bit(
                    table.sparse@,
                    symbol_bit(c as int),
                ) == row_bit(first_sparse, symbol_bit(c as int)),
        decreases families@.len() - j,
    {
        let ghost before = table;
        assert(family_wf(families@[j as int], n, shots as int));
        assert(table.awaits(families@[j as int], sw, dense_table));
        add_family(&mut table, &families[j], nsymbols, shot_words, shots, dense_table);
        proof {
            let added = families@[j as int];
            assert forall|k: int| 0 <= k < families@.len() && k != j implies (before.holds(
                #[trigger] families@[k],
                sw,
            ) ==> table.holds(families@[k], sw)) && (before.awaits(families@[k], sw, dense_table)
                ==> table.awaits(families@[k], sw, dense_table)) by {
                lemma_family_range(families@[k], n, shots as int);
                assert forall|c: i32| #[trigger] families@[k].conditions@.contains(c) implies 0 < c
                    <= n && !added.conditions@.contains(c) by {
                    if k < j {
                        assert(!families@[j as int].conditions@.contains(c));
                    } else {
                        if families@[j as int].conditions@.contains(c) {
                            assert(!families@[k].conditions@.contains(c));
                        }
                    }
                }
                lemma_keeps(before, table, added, families@[k], n, sw, dense_table);
            }
            assert forall|k: int, c: i32|
                0 <= k < j + 1 && #[trigger] families@[k].conditions@.contains(c) implies row_bit(
                table.sparse@,
                symbol_bit(c as int),
            ) == kept_sparse(families@[k], dense_table) by {
                lemma_family_range(families@[k], n, shots as int);
                if k < j {
                    assert(!families@[j as int].conditions@.contains(c));
                }
            }
            assert forall|c: i32| 0 < c && !some_family_has(families@, c) implies #[trigger] row_bit(
                table.sparse@,
                symbol_bit(c as int),
            ) == row_bit(first_sparse, symbol_bit(c as int)) by {
                assert(!families@[j as int].conditions@.contains(c));
                assert(row_bit(before.sparse@, symbol_bit(c as int)) == row_bit(
                    first_sparse,
                    symbol_bit(c as int),
                ));
            }
        }
        j += 1;
    }
    let index: HitIndex = build_sparse_condition_hits(nsymbols, &table.hits);
    let ghost hits = table.hits@;
    let ghost done = table;
    samples.nshots = shots;
    samples.shot_words = shot_words;
    samples.value_words = table.values;
    samples.sparse_condition_words = table.sparse;
    samples.sparse_hit_offsets = index.offsets;
    samples.sparse_hit_shots = index.shots;
    proof {
        lemma_hits_below_total(hits, n);
        assert(samples.sparse_hit_offsets@[0] == hits_below(hits, 0));
        assert(samples.sparse_hit_offsets@[n] == hits_below(hits, n));
        assert forall|r: int, q: int| 0 <= r <= q <= n implies samples.sparse_hit_offsets@[r]
            <= samples.sparse_hit_offsets@[q] by {
            lemma_hits_below_monotone(hits, r, q);
        }
        assert forall|r: int| 0 <= r <= n implies #[trigger] samples.sparse_hit_offsets@[r]
            <= samples.sparse_hit_shots@.len() by {
            lemma_hits_below_monotone(hits, r, n);
            lemma_hits_below_total(hits, n);
        }
        assert forall|k: int| 0 <= k < samples.sparse_hit_shots@.len() implies
            #[trigger] samples.sparse_hit_shots@[k] < shots by {
            lemma_indexed_shot(
                samples.sparse_hit_offsets@,
                samples.sparse_hit_shots@,
                n,
                hits,
                shots as int,
                k,
            );
        }
        assert forall|j: int, c: i32, i: int|
            0 <= j < families@.len() && #[trigger] families@[j].conditions@.contains(c) && 0 <= i < 64
                * sw implies #[trigger] samples.sample_bit(c, i) == family_bit(families@[j], c, i) by {
            assert(done.holds(families@[j], sw));
            assert(done.bit(sw, c, i) == family_bit(families@[j], c, i));
            lemma_family_range(families@[j], n, shots as int);
            assert(0 < c <= n);
            lemma_row_shots_parity(hits, c - 1, i);
            assert(samples.hits_of(c) == row_shots(hits, c - 1));
        }
    }
}

proof fn lemma_family_range(family: Family, n: int, shots: int)
    requires
        family_wf(family, n, shots),
    ensures
        forall|c: i32| #[trigger] family.conditions@.contains(c) ==> 0 < c <= n,
{
    assert forall|c: i32| #[trigger] family.conditions@.contains(c) implies 0 < c <= n by {
        let j = choose|j: int| 0 <= j < family.conditions@.len() && family.conditions@[j] == c;
        assert(0 < family.conditions@[j] <= n);
    }
}

proof fn lemma_row_shots_bounded(hits: Seq<Hit>, row: int, shots: int)
    requires
        forall|k: int| 0 <= k < hits.len() ==> (#[trigger] hits[k]).shot < shots,
    ensures
        forall|k: int| 0 <= k < row_shots(hits, row).len() ==> #[trigger] row_shots(hits, row)[k] < shots,
    decreases hits.len(),
{
    if hits.len() > 0 {
        let rest = hits.drop_last();
        assert forall|k: int| 0 <= k < rest.len() implies (#[trigger] rest[k]).shot < shots by {
            assert(rest[k] == hits[k]);
        }
        lemma_row_shots_bounded(rest, row, shots);
        assert(hits[hits.len() - 1].shot < shots);
        assert forall|k: int| 0 <= k < row_shots(hits, row).len() implies
            #[trigger] row_shots(hits, row)[k] < shots by {
            if k < row_shots(rest, row).len() {
                assert(row_shots(hits, row)[k] == row_shots(rest, row)[k]);
            }
        }
    }
}

/// Every indexed shot is the shot of some hit.
proof fn lemma_indexed_shot(
    offsets: Seq<usize>,
    shots: Seq<u32>,
    rows: int,
    hits: Seq<Hit>,
    bound: int,
    k: int,
)
    requires
        rows >= 0,
        indexes(offsets, shots, rows, hits),
        forall|k: int| 0 <= k < hits.len() ==> (#[trigger] hits[k]).shot < bound && hits[k].row < rows,
        0 <= k < shots.len(),
    ensures
        shots[k] < bound,
{
    lemma_hits_below_total(hits, rows);
    lemma_indexed_row(offsets, hits, rows, k);
    let r = choose|r: int| 0 <= r < rows && offsets[r] <= k < #[trigger] offsets[r + 1];
    lemma_row_shots_bounded(hits, r, bound);
    lemma_hits_below_monotone(hits, r + 1, rows);
    let part = shots.subrange(offsets[r] as int, offsets[r + 1] as int);
    assert(part == row_shots(hits, r));
    assert(shots[k] == part[k - offsets[r]]);
}

proof fn lemma_indexed_row(offsets: Seq<usize>, hits: Seq<Hit>, rows: int, k: int)
    requires
        0 <= rows < offsets.len(),
        forall|r: int| 0 <= r <= rows ==> #[trigger] offsets[r] == hits_below(hits, r),
        0 <= k < offsets[rows],
    ensures
        exists|r: int| 0 <= r < rows && offsets[r] <= k < #[trigger] offsets[r + 1],
    decreases rows,
{
    if rows == 0 {
        assert(offsets[0] == hits_below(hits, 0));
    } else if offsets[rows - 1] <= k {
        assert(offsets[(rows - 1) + 1] == offsets[rows]);
    } else {
        lemma_indexed_row(offsets, hits, rows - 1, k);
    }
}

fn copy_words(words: &Vec<u64>) -> (r: Vec<u64>)
    ensures
        r@ == words@,
{
    let mut out: Vec<u64> = Vec::new();
    let mut k: usize = 0;
    while k < words.len()
        invariant
            k <= words@.len(),
            out@ == words@.take(k as int),
        decreases words@.len() - k,
    {
        out.push(words[k]);
        assert(out@ =~= words@.take(k + 1));
        k += 1;
    }
    assert(out@ =~= words@);
    out
}

// ---------------------------------------------------------------------------
// From draws to families
// ---------------------------------------------------------------------------
/// The draws of a rare categorical group: the gaps between events, and the event
/// row of each.
#[derive(Clone, Debug, PartialEq, Eq)]
pub struct RareDraw {
    pub gaps: Vec<u64>,
    pub events: Vec<usize>,
    /// The expected number of events calls for dense rows.
    pub dense: bool,
}

/// The draws of a low-probability group: the gaps between hits.
#[derive(Clone, Debug, PartialEq, Eq)]
pub struct SkipDraw {
    pub gaps: Vec<u64>,
    /// The expected number of hits calls for dense rows.
    pub dense: bool,
}

/// Everything the presampler draws for a chunk of shots.
#[derive(Clone, Debug, PartialEq, Eq)]
pub struct ExogenousDraws {
    /// The row of each categorical distribution for each shot.
    pub categorical: Vec<Vec<usize>>,
    pub rare: Vec<RareDraw>,
    pub bernoulli: Vec<BiasedDraw>,
    pub low: Vec<SkipDraw>,
}

/// A hit on a condition.
pub open spec fn hit_on(c: i32, shot: int) -> Hit {
    Hit { row: (c - 1) as u32, shot: shot as u32 }
}

/// The hits of an assignment row: the first `n` conditions whose bit is set.
pub open spec fn assignment_hits(
    conditions: Seq<i32>,
    assignment: Seq<u64>,
    shot: int,
    n: int,
) -> Seq<Hit>
    decreases n,
{
    if n <= 0 {
        Seq::empty()
    } else if row_bit(assignment, n - 1) {
        assignment_hits(conditions, assignment, shot, n - 1).push(hit_on(conditions[n - 1], shot))
    } else {
        assignment_hits(conditions, assignment, shot, n - 1)
    }
}

/// The hits of a categorical distribution over the first `n` shots.
pub open spec fn categorical_hits(
    d: SymbolicCategoricalDistribution,
    rows: Seq<usize>,
    n: int,
) -> Seq<Hit>
    decreases n,
{
    if n <= 0 {
        Seq::empty()
    } else {
        categorical_hits(d, rows, n - 1) + assignment_hits(
            d.conditions@,
            d.assignments@[rows[n - 1] as int]@,
            n - 1,
            d.conditions@.len() as int,
        )
    }
}

/// The hits of the first `n` events of a rare group. An event at position `p`
/// strikes shot `p / sets` in set `p % sets`.
pub open spec fn rare_hits(
    g: RareCategoricalSampleGroup,
    positions: Seq<u64>,
    events: Seq<usize>,
    n: int,
) -> Seq<Hit>
    decreases n,
{
    if n <= 0 {
        Seq::empty()
    } else {
        let sets = g.conditions@.len() as int;
        let p = positions[n - 1] as int;
        let set = g.conditions@[p % sets]@;
        rare_hits(g, positions, events, n - 1) + assignment_hits(
            set,
            g.assignments@[g.event_rows@[events[n - 1] as int] as int]@,
            p / sets,
            set.len() as int,
        )
    }
}

/// The hits of the first `n` positions of a low-probability group. Position `p`
/// strikes shot `p / len` of condition `p % len`.
pub open spec fn low_hits(g: BernoulliSampleGroup, positions: Seq<u64>, n: int) -> Seq<Hit>
    decreases n,
{
    if n <= 0 {
        Seq::empty()
    } else {
        let len = g.conditions@.len() as int;
        let p = positions[n - 1] as int;
        low_hits(g, positions, n - 1).push(hit_on(g.conditions@[p % len], p / len))
    }
}

/// Conditions that can be drawn on.
pub open spec fn drawable(conditions: Seq<i32>, nsymbols: int) -> bool {
    forall|k: int| 0 <= k < conditions.len() ==> 0 < #[trigger] conditions[k] <= nsymbols
}

fn push_assignment_hits(
    out: &mut Vec<Hit>,
    conditions: &Vec<i32>,
    assignment: &Vec<u64>,
    shot: usize,
    Ghost(nsymbols): Ghost<int>,
)
    requires
        drawable(conditions@, nsymbols),
        conditions@.len() <= 64 * assignment@.len(),
        shot <= u32::MAX,
    ensures
        final(out)@ == old(out)@ + assignment_hits(
            conditions@,
            assignment@,
            shot as int,
            conditions@.len() as int,
        ),
{
    let ghost start = out@;
    let mut k: usize = 0;
    assert(start + assignment_hits(conditions@, assignment@, shot as int, 0) =~= start);
    while k < conditions.len()
        invariant
            k <= conditions@.len(),
            drawable(conditions@, nsymbols),
            conditions@.len() <= 64 * assignment@.len(),
            shot <= u32::MAX,
            out@ == start + assignment_hits(conditions@, assignment@, shot as int, k as int),
        decreases conditions@.len() - k,
    {
        if packed_bit(assignment.as_slice(), k) {
            assert(0 < conditions@[k as int]);
            out.push(Hit { row: (conditions[k] - 1) as u32, shot: shot as u32 });
        }
        k += 1;
        assert(out@ =~= start + assignment_hits(conditions@, assignment@, shot as int, k as int));
    }
}

/// Every hit of an assignment row is on one of the conditions, at the shot.
proof fn lemma_assignment_hits(conditions: Seq<i32>, assignment: Seq<u64>, shot: int, n: int, nsymbols: int)
    requires
        drawable(conditions, nsymbols),
        nsymbols <= i32::MAX,
        n <= conditions.len(),
        0 <= shot <= u32::MAX,
    ensures
        forall|k: int|
            0 <= k < assignment_hits(conditions, assignment, shot, n).len() ==> {
                let h = #[trigger] assignment_hits(conditions, assignment, shot, n)[k];
                h.shot == shot && h.row < nsymbols && conditions.contains(hit_condition(h))
            },
    decreases n,
{
    if n > 0 {
        lemma_assignment_hits(conditions, assignment, shot, n - 1, nsymbols);
        let rest = assignment_hits(conditions, assignment, shot, n - 1);
        let all = assignment_hits(conditions, assignment, shot, n);
        assert forall|k: int| 0 <= k < all.len() implies {
            let h = #[trigger] all[k];
            h.shot == shot && h.row < nsymbols && conditions.contains(hit_condition(h))
        } by {
            if k < rest.len() {
                assert(all[k] == rest[k]);
            } else {
                assert(0 < conditions[n - 1] <= nsymbols);
                assert(all[k] == hit_on(conditions[n - 1], shot));
                assert(hit_condition(all[k]) == conditions[n - 1]);
            }
        }
    }
}

/// The family's hits are on its conditions and inside the chunk.
spec fn hits_fit(hits: Seq<Hit>, has: spec_fn(i32) -> bool, nsymbols: int, shots: int) -> bool {
    forall|k: int|
        0 <= k < hits.len() ==> (#[trigger] hits[k]).shot < shots && hits[k].row < nsymbols && has(
            hit_condition(hits[k]),
        )
}

pub open spec fn categorical_draw_wf(
    d: SymbolicCategoricalDistribution,
    rows: Seq<usize>,
    nsymbols: int,
    shots: int,
) -> bool {
    &&& drawable(d.conditions@, nsymbols)
    &&& rows.len() == shots
    &&& forall|k: int|
        0 <= k < rows.len() ==> #[trigger] rows[k] < d.assignments@.len() && d.conditions@.len() <= 64
            * d.assignments@[rows[k] as int]@.len()
}

fn categorical_family(
    d: &SymbolicCategoricalDistribution,
    rows: &Vec<usize>,
    shots: usize,
    Ghost(nsymbols): Ghost<int>,
) -> (r: Family)
    requires
        categorical_draw_wf(*d, rows@, nsymbols, shots as int),
        nsymbols <= i32::MAX,
        shots <= u32::MAX,
    ensures
        family_wf(r, nsymbols, shots as int),
        r.conditions@ == d.conditions@,
        !r.skip,
        match r.bits {
            FamilyBits::Hits(hits) => hits@ == categorical_hits(*d, rows@, shots as int),
            _ => false,
        },
{
    let mut hits: Vec<Hit> = Vec::new();
    let mut shot: usize = 0;
    let ghost has = |c: i32| d.conditions@.contains(c);
    while shot < shots
        invariant
            shot <= shots,
            shots <= u32::MAX,
            nsymbols <= i32::MAX,
            categorical_draw_wf(*d, rows@, nsymbols, shots as int),
            has == (|c: i32| d.conditions@.contains(c)),
            hits@ == categorical_hits(*d, rows@, shot as int),
            hits_fit(hits@, has, nsymbols, shots as int),
        decreases shots - shot,
    {
        let row: usize = rows[shot];
        assert(rows@[shot as int] < d.assignments@.len());
        let ghost before = hits@;
        push_assignment_hits(&mut hits, &d.conditions, &d.assignments[row], shot, Ghost(nsymbols));
        proof {
            lemma_assignment_hits(
                d.conditions@,
                d.assignments@[row as int]@,
                shot as int,
                d.conditions@.len() as int,
                nsymbols,
            );
            assert forall|k: int| 0 <= k < hits@.len() implies (#[trigger] hits@[k]).shot < shots
                && hits@[k].row < nsymbols && has(hit_condition(hits@[k])) by {
                if k < before.len() {
                    assert(hits@[k] == before[k]);
                } else {
                    assert(hits@[k] == assignment_hits(
                        d.conditions@,
                        d.assignments@[row as int]@,
                        shot as int,
                        d.conditions@.len() as int,
                    )[k - before.len()]);
                }
            }
        }
        shot += 1;
    }
    let conditions: Vec<i32> = crate::symbolic::copy_conditions(&d.conditions);
    let family: Family = Family { conditions, skip: false, dense: true, bits: FamilyBits::Hits(hits) };
    proof {
        assert forall|k: int| 0 <= k < hits@.len() implies (#[trigger] hits@[k]).shot < shots
            && hits@[k].row < nsymbols && family.conditions@.contains(hit_condition(hits@[k])) by {
            assert(has(hit_condition(hits@[k])));
        }
    }
    family
}

pub open spec fn rare_draw_wf(
    g: RareCategoricalSampleGroup,
    draw: RareDraw,
    nsymbols: int,
    shots: int,
) -> bool {
    let sets = g.conditions@.len() as int;
    let hits = skips_from(draw.gaps@, shots * sets, 0).len();
    &&& shots * sets <= u64::MAX
    &&& forall|k: int| 0 <= k < sets ==> drawable((#[trigger] g.conditions@[k])@, nsymbols)
    &&& hits <= draw.events@.len()
    &&& forall|k: int|
        0 <= k < hits ==> #[trigger] draw.events@[k] < g.event_rows@.len()
            && g.event_rows@[draw.events@[k] as int] < g.assignments@.len()
    &&& forall|k: int, m: int|
        0 <= k < g.assignments@.len() && 0 <= m < sets ==> (#[trigger] g.conditions@[m])@.len() <= 64
            * (#[trigger] g.assignments@[k])@.len()
}

fn flatten_sets(sets: &Vec<Vec<i32>>, Ghost(nsymbols): Ghost<int>) -> (r: Vec<i32>)
    requires
        forall|k: int| 0 <= k < sets@.len() ==> drawable((#[trigger] sets@[k])@, nsymbols),
    ensures
        drawable(r@, nsymbols),
        forall|c: i32| #[trigger] r@.contains(c) == sets_have(sets@, sets@.len() as int, c),
{
    let mut out: Vec<i32> = Vec::new();
    let mut k: usize = 0;
    while k < sets.len()
        invariant
            k <= sets@.len(),
            forall|k: int| 0 <= k < sets@.len() ==> drawable((#[trigger] sets@[k])@, nsymbols),
            drawable(out@, nsymbols),
            forall|c: i32| #[trigger] out@.contains(c) == sets_have(sets@, k as int, c),
        decreases sets@.len() - k,
    {
        let set: &Vec<i32> = &sets[k];
        let ghost start = out@;
        let mut m: usize = 0;
        assert(start + set@.take(0) =~= start);
        assert(drawable(sets@[k as int]@, nsymbols));
        while m < set.len()
            invariant
                m <= set@.len(),
                drawable(set@, nsymbols),
                drawable(out@, nsymbols),
                out@ == start + set@.take(m as int),
            decreases set@.len() - m,
        {
            assert(0 < set@[m as int] <= nsymbols);
            out.push(set[m]);
            assert(out@ =~= start + set@.take(m + 1));
            m += 1;
        }
        proof {
            assert(set@.take(m as int) =~= set@);
            let next = k + 1;
            assert forall|c: i32| #[trigger] out@.contains(c) == sets_have(sets@, next, c) by {
                if out@.contains(c) {
                    let i = choose|i: int| 0 <= i < out@.len() && out@[i] == c;
                    if i < start.len() {
                        assert(start.contains(c)) by {
                            assert(start[i] == c);
                        }
                        let j = choose|j: int| 0 <= j < k && (#[trigger] sets@[j])@.contains(c);
                        assert(sets@[j]@.contains(c));
                    } else {
                        assert(set@[i - start.len()] == c);
                        assert(sets@[k as int]@.contains(c));
                    }
                }
                if sets_have(sets@, next, c) {
                    let j = choose|j: int| 0 <= j < next && (#[trigger] sets@[j])@.contains(c);
                    if j < k {
                        assert(sets_have(sets@, k as int, c));
                        assert(start.contains(c));
                        let i = choose|i: int| 0 <= i < start.len() && start[i] == c;
                        assert(out@[i] == c);
                    } else {
                        let i = choose|i: int| 0 <= i < set@.len() && set@[i] == c;
                        assert(out@[start.len() + i] == c);
                    }
                }
            }
        }
        k += 1;
    }
    out
}

fn rare_family(
    g: &RareCategoricalSampleGroup,
    draw: &RareDraw,
    shots: usize,
    Ghost(nsymbols): Ghost<int>,
) -> (r: Family)
    requires
        rare_draw_wf(*g, *draw, nsymbols, shots as int),
        nsymbols <= i32::MAX,
        shots <= u32::MAX,
    ensures
        family_wf(r, nsymbols, shots as int),
        forall|c: i32| #[trigger]
            r.conditions@.contains(c) == sets_have(g.conditions@, g.conditions@.len() as int, c),
        r.skip,
        r.dense == draw.dense,
        match r.bits {
            FamilyBits::Hits(hits) => {
                let positions = skips_from(draw.gaps@, shots * g.conditions@.len() as int, 0);
                hits@ == rare_hits(*g, positions, draw.events@, positions.len() as int)
            },
            _ => false,
        },
{
    let nsets: usize = g.conditions.len();
    assert(0 <= shots * nsets) by (nonlinear_arith);
    let total: u64 = (shots as u64) * (nsets as u64);
    let positions: Vec<u64> = skip_positions(&draw.gaps, total);
    let mut hits: Vec<Hit> = Vec::new();
    let ghost has = |c: i32| sets_have(g.conditions@, g.conditions@.len() as int, c);
    let mut k: usize = 0;
    while k < positions.len()
        invariant
            k <= positions@.len(),
            nsets == g.conditions@.len(),
            total == shots * nsets,
            shots <= u32::MAX,
            nsymbols <= i32::MAX,
            rare_draw_wf(*g, *draw, nsymbols, shots as int),
            positions@ == skips_from(draw.gaps@, shots * g.conditions@.len() as int, 0),
            forall|k: int| 0 <= k < positions@.len() ==> #[trigger] positions@[k] < total,
            has == (|c: i32| sets_have(g.conditions@, g.conditions@.len() as int, c)),
            hits@ == rare_hits(*g, positions@, draw.events@, k as int),
            hits_fit(hits@, has, nsymbols, shots as int),
        decreases positions@.len() - k,
    {
        let position: u64 = positions[k];
        assert(positions@[k as int] < total);
        proof {
            lemma_split_position(position as int, nsets as int, shots as int);
        }
        let shot: usize = (position / nsets as u64) as usize;
        let set: usize = (position % nsets as u64) as usize;
        let event: usize = draw.events[k];
        assert(draw.events@[k as int] < g.event_rows@.len());
        let row: usize = g.event_rows[event];
        assert(drawable(g.conditions@[set as int]@, nsymbols));
        assert(g.conditions@[set as int]@.len() <= 64 * g.assignments@[row as int]@.len());
        let ghost before = hits@;
        push_assignment_hits(
            &mut hits,
            &g.conditions[set],
            &g.assignments[row],
            shot,
            Ghost(nsymbols),
        );
        proof {
            let list = g.conditions@[set as int]@;
            let assignment = g.assignments@[row as int]@;
            lemma_assignment_hits(list, assignment, shot as int, list.len() as int, nsymbols);
            let more = assignment_hits(list, assignment, shot as int, list.len() as int);
            assert(hits@ == before + more);
            assert forall|k: int| 0 <= k < hits@.len() implies (#[trigger] hits@[k]).shot < shots
                && hits@[k].row < nsymbols && has(hit_condition(hits@[k])) by {
                if k < before.len() {
                    assert(hits@[k] == before[k]);
                } else {
                    assert(hits@[k] == more[k - before.len()]);
                    assert(g.conditions@[set as int]@.contains(hit_condition(hits@[k])));
                }
            }
        }
        k += 1;
    }
    let conditions: Vec<i32> = flatten_sets(&g.conditions, Ghost(nsymbols));
    let family: Family = Family {
        conditions,
        skip: true,
        dense: draw.dense,
        bits: FamilyBits::Hits(hits),
    };
    proof {
        assert forall|k: int| 0 <= k < hits@.len() implies (#[trigger] hits@[k]).shot < shots
            && hits@[k].row < nsymbols && family.conditions@.contains(hit_condition(hits@[k])) by {
            assert(has(hit_condition(hits@[k])));
        }
    }
    family
}

/// A position below `shots * sets` names a shot and a set.
proof fn lemma_split_position(position: int, sets: int, shots: int)
    by (nonlinear_arith)
    requires
        0 <= position < shots * sets,
        0 <= sets,
        0 <= shots,
    ensures
        sets > 0,
        0 <= position / sets < shots,
        0 <= position % sets < sets,
{
}

pub open spec fn low_draw_wf(
    g: BernoulliSampleGroup,
    nsymbols: int,
    shots: int,
) -> bool {
    &&& shots * g.conditions@.len() <= u64::MAX
    &&& drawable(g.conditions@, nsymbols)
}

fn low_family(
    g: &BernoulliSampleGroup,
    draw: &SkipDraw,
    shots: usize,
    Ghost(nsymbols): Ghost<int>,
) -> (r: Family)
    requires
        low_draw_wf(*g, nsymbols, shots as int),
        nsymbols <= i32::MAX,
        shots <= u32::MAX,
    ensures
        family_wf(r, nsymbols, shots as int),
        r.conditions@ == g.conditions@,
        r.skip,
        r.dense == draw.dense,
        match r.bits {
            FamilyBits::Hits(hits) => {
                let positions = skips_from(draw.gaps@, shots * g.conditions@.len() as int, 0);
                hits@ == low_hits(*g, positions, positions.len() as int)
            },
            _ => false,
        },
{
    let len: usize = g.conditions.len();
    assert(0 <= shots * len) by (nonlinear_arith);
    let total: u64 = (shots as u64) * (len as u64);
    let positions: Vec<u64> = skip_positions(&draw.gaps, total);
    let mut hits: Vec<Hit> = Vec::new();
    let mut k: usize = 0;
    while k < positions.len()
        invariant
            k <= positions@.len(),
            len == g.conditions@.len(),
            total == shots * len,
            shots <= u32::MAX,
            nsymbols <= i32::MAX,
            low_draw_wf(*g, nsymbols, shots as int),
            forall|k: int| 0 <= k < positions@.len() ==> #[trigger] positions@[k] < total,
            hits@ == low_hits(*g, positions@, k as int),
            forall|k: int|
                0 <= k < hits@.len() ==> (#[trigger] hits@[k]).shot < shots && hits@[k].row
                    < nsymbols && g.conditions@.contains(hit_condition(hits@[k])),
        decreases positions@.len() - k,
    {
        let position: u64 = positions[k];
        assert(positions@[k as int] < total);
        proof {
            lemma_split_position(position as int, len as int, shots as int);
        }
        let shot: usize = (position / len as u64) as usize;
        let index: usize = (position % len as u64) as usize;
        let condition: i32 = g.conditions[index];
        assert(0 < g.conditions@[index as int] <= nsymbols);
        let hit: Hit = Hit { row: (condition - 1) as u32, shot: shot as u32 };
        hits.push(hit);
        assert(hit_condition(hit) == g.conditions@[index as int]);
        k += 1;
    }
    Family {
        conditions: crate::symbolic::copy_conditions(&g.conditions),
        skip: true,
        dense: draw.dense,
        bits: FamilyBits::Hits(hits),
    }
}

// ---------------------------------------------------------------------------
// Resampling
// ---------------------------------------------------------------------------
/// How many families the program samples.
pub open spec fn family_count(program: &FactoredInstructionProgram) -> int {
    program.sampled_categorical_distributions@.len() as int
        + program.sampled_rare_categorical_groups@.len() as int
        + program.sampled_bernoulli_conditions@.len() as int
        + program.sampled_low_probability_bernoulli_groups@.len() as int
}

/// Family `j` samples the condition. The families are the categorical
/// distributions, the rare groups, the Bernoulli conditions and the
/// low-probability groups, in this order.
pub open spec fn family_has(program: &FactoredInstructionProgram, j: int, c: i32) -> bool {
    let nd = program.sampled_categorical_distributions@.len() as int;
    let nr = program.sampled_rare_categorical_groups@.len() as int;
    let nb = program.sampled_bernoulli_conditions@.len() as int;
    if j < nd {
        program.sampled_categorical_distributions@[j].conditions@.contains(c)
    } else if j < nd + nr {
        let g = program.sampled_rare_categorical_groups@[j - nd];
        sets_have(g.conditions@, g.conditions@.len() as int, c)
    } else if j < nd + nr + nb {
        program.sampled_bernoulli_conditions@[j - nd - nr] == c
    } else {
        program.sampled_low_probability_bernoulli_groups@[j - nd - nr - nb].conditions@.contains(c)
    }
}

/// Whether family `j` is drawn by geometric skips.
pub open spec fn family_skips(program: &FactoredInstructionProgram, j: int) -> bool {
    let nd = program.sampled_categorical_distributions@.len() as int;
    let nr = program.sampled_rare_categorical_groups@.len() as int;
    let nb = program.sampled_bernoulli_conditions@.len() as int;
    nd <= j < nd + nr || nd + nr + nb <= j
}

/// Whether family `j` is a Bernoulli condition, which is given a row.
pub open spec fn samples_row(program: &FactoredInstructionProgram, j: int) -> bool {
    let nd = program.sampled_categorical_distributions@.len() as int;
    let nr = program.sampled_rare_categorical_groups@.len() as int;
    let nb = program.sampled_bernoulli_conditions@.len() as int;
    nd + nr <= j < nd + nr + nb
}

/// Whether the draws of skip family `j` call for dense rows.
pub open spec fn family_dense(
    program: &FactoredInstructionProgram,
    draws: ExogenousDraws,
    j: int,
) -> bool {
    let nd = program.sampled_categorical_distributions@.len() as int;
    let nr = program.sampled_rare_categorical_groups@.len() as int;
    let nb = program.sampled_bernoulli_conditions@.len() as int;
    if j < nd + nr {
        draws.rare@[j - nd].dense
    } else {
        draws.low@[j - nd - nr - nb].dense
    }
}

/// The hits that the draws give to family `j`, in the order they are drawn; a
/// Bernoulli condition has a row instead.
pub open spec fn family_hits(
    program: &FactoredInstructionProgram,
    draws: ExogenousDraws,
    shots: int,
    j: int,
) -> Seq<Hit> {
    let nd = program.sampled_categorical_distributions@.len() as int;
    let nr = program.sampled_rare_categorical_groups@.len() as int;
    let nb = program.sampled_bernoulli_conditions@.len() as int;
    if j < nd {
        categorical_hits(
            program.sampled_categorical_distributions@[j],
            draws.categorical@[j]@,
            shots,
        )
    } else if j < nd + nr {
        let g = program.sampled_rare_categorical_groups@[j - nd];
        let draw = draws.rare@[j - nd];
        let positions = skips_from(draw.gaps@, shots * g.conditions@.len() as int, 0);
        rare_hits(g, positions, draw.events@, positions.len() as int)
    } else if j < nd + nr + nb {
        Seq::empty()
    } else {
        let g = program.sampled_low_probability_bernoulli_groups@[j - nd - nr - nb];
        let draw = draws.low@[j - nd - nr - nb];
        let positions = skips_from(draw.gaps@, shots * g.conditions@.len() as int, 0);
        low_hits(g, positions, positions.len() as int)
    }
}

/// Family `j` is kept as hits: it is drawn by geometric skips, its draws do not
/// call for dense rows, and the table is not small.
pub open spec fn family_sparse(
    program: &FactoredInstructionProgram,
    draws: ExogenousDraws,
    shots: int,
    j: int,
) -> bool {
    &&& !small_table(program.nsymbols as int, shots)
    &&& family_skips(program, j)
    &&& !family_dense(program, draws, j)
}

/// The condition belongs to a family that is kept as hits.
pub open spec fn condition_sparse(
    program: &FactoredInstructionProgram,
    draws: ExogenousDraws,
    shots: int,
    c: i32,
) -> bool {
    exists|j: int|
        0 <= j < family_count(program) && #[trigger] family_has(program, j, c) && family_sparse(
            program,
            draws,
            shots,
            j,
        )
}

/// The hits of the first `n` families, as far as they are kept as hits, in the
/// order they are drawn.
pub open spec fn sparse_hits(
    program: &FactoredInstructionProgram,
    draws: ExogenousDraws,
    shots: int,
    n: int,
) -> Seq<Hit>
    decreases n,
{
    if n <= 0 {
        Seq::empty()
    } else if family_sparse(program, draws, shots, n - 1) {
        sparse_hits(program, draws, shots, n - 1) + family_hits(program, draws, shots, n - 1)
    } else {
        sparse_hits(program, draws, shots, n - 1)
    }
}

/// How the table stores the draws: which conditions are kept as hits, and the index
/// of those hits. Nothing of it depends on what the table held before.
pub open spec fn laid_out(
    program: &FactoredInstructionProgram,
    draws: ExogenousDraws,
    shots: int,
    samples: PackedPresampledExogenous,
) -> bool {
    &&& samples.shot_words == words_for_bits(shots)
    &&& samples.value_words@.len() == program.nsymbols * samples.shot_words
    &&& samples.sparse_condition_words@.len() == samples.sparse_condition_template_words@.len()
    &&& no_late_bit(samples.sparse_condition_words@)
    &&& forall|c: i32|
        c > 0 ==> #[trigger] samples.is_sparse(c) == condition_sparse(program, draws, shots, c)
    &&& forall|c: i32|
        c > 0 && #[trigger] samples.is_sparse(c) ==> row_bit(
            samples.sparse_condition_template_words@,
            symbol_bit(c as int),
        ) && !small_table(program.nsymbols as int, shots)
    &&& indexes(
        samples.sparse_hit_offsets@,
        samples.sparse_hit_shots@,
        program.nsymbols as int,
        sparse_hits(program, draws, shots, family_count(program)),
    )
    &&& samples.sparse_hit_offsets@[0] == 0
    &&& samples.sparse_hit_offsets@[program.nsymbols as int] == samples.sparse_hit_shots@.len()
    &&& forall|j: int, c: i32|
        0 <= j < family_count(program) && #[trigger] family_has(program, j, c) && family_sparse(
            program,
            draws,
            shots,
            j,
        ) ==> samples.hits_of(c) == row_shots(family_hits(program, draws, shots, j), c - 1)
    &&& forall|j: int, c: i32, i: int|
        0 <= j < family_count(program) && #[trigger] family_has(program, j, c) && shots <= i < 64
            * samples.shot_words ==> !#[trigger] samples.sample_bit(c, i)
}

/// A table that was refilled from a chunk's draws.
pub open spec fn resampled(
    program: &FactoredInstructionProgram,
    draws: ExogenousDraws,
    shots: int,
    samples: PackedPresampledExogenous,
) -> bool {
    &&& 0 <= shots <= u32::MAX
    &&& program.nsymbols < i32::MAX
    &&& draws_wf(program, draws, shots)
    &&& samples.prepared_for(program)
    &&& samples.wf()
    &&& samples.filled()
    &&& samples.nshots == shots
    &&& laid_out(program, draws, shots, samples)
    &&& forall|j: int, c: i32, i: int|
        0 <= j < family_count(program) && #[trigger] family_has(program, j, c) && 0 <= i < 64
            * samples.shot_words ==> #[trigger] samples.sample_bit(c, i) == drawn_bit(
            program,
            draws,
            shots,
            j,
            c,
            i,
        )
}

/// The value that the draws give to a condition of family `j` for one shot.
pub open spec fn drawn_bit(
    program: &FactoredInstructionProgram,
    draws: ExogenousDraws,
    shots: int,
    j: int,
    c: i32,
    i: int,
) -> bool {
    let nd = program.sampled_categorical_distributions@.len() as int;
    let nr = program.sampled_rare_categorical_groups@.len() as int;
    let nb = program.sampled_bernoulli_conditions@.len() as int;
    if j < nd {
        hit_parity(
            categorical_hits(
                program.sampled_categorical_distributions@[j],
                draws.categorical@[j]@,
                shots,
            ),
            c - 1,
            i,
        )
    } else if j < nd + nr {
        let g = program.sampled_rare_categorical_groups@[j - nd];
        let draw = draws.rare@[j - nd];
        let positions = skips_from(draw.gaps@, shots * g.conditions@.len() as int, 0);
        hit_parity(rare_hits(g, positions, draw.events@, positions.len() as int), c - 1, i)
    } else if j < nd + nr + nb {
        biased_bit(draws.bernoulli@[j - nd - nr], shots, i)
    } else {
        let g = program.sampled_low_probability_bernoulli_groups@[j - nd - nr - nb];
        let draw = draws.low@[j - nd - nr - nb];
        let positions = skips_from(draw.gaps@, shots * g.conditions@.len() as int, 0);
        hit_parity(low_hits(g, positions, positions.len() as int), c - 1, i)
    }
}

/// Each sampled condition belongs to one family.
pub open spec fn exogenous_disjoint(program: &FactoredInstructionProgram) -> bool {
    forall|j: int, k: int, c: i32|
        0 <= j < k < family_count(program) && #[trigger] family_has(program, j, c)
            ==> !#[trigger] family_has(program, k, c)
}

/// The draws fit the program and the chunk.
pub open spec fn draws_wf(
    program: &FactoredInstructionProgram,
    draws: ExogenousDraws,
    shots: int,
) -> bool {
    let nsymbols = program.nsymbols as int;
    &&& draws.categorical@.len() == program.sampled_categorical_distributions@.len()
    &&& draws.rare@.len() == program.sampled_rare_categorical_groups@.len()
    &&& draws.bernoulli@.len() == program.sampled_bernoulli_conditions@.len()
    &&& draws.low@.len() == program.sampled_low_probability_bernoulli_groups@.len()
    &&& forall|j: int|
        0 <= j < draws.categorical@.len() ==> categorical_draw_wf(
            program.sampled_categorical_distributions@[j],
            (#[trigger] draws.categorical@[j])@,
            nsymbols,
            shots,
        )
    &&& forall|j: int|
        0 <= j < draws.rare@.len() ==> rare_draw_wf(
            program.sampled_rare_categorical_groups@[j],
            #[trigger] draws.rare@[j],
            nsymbols,
            shots,
        )
    &&& drawable(program.sampled_bernoulli_conditions@, nsymbols)
    &&& forall|j: int|
        0 <= j < draws.bernoulli@.len() ==> enough_coins(
            #[trigger] draws.bernoulli@[j],
            words_for_bits(shots),
        )
    &&& forall|j: int|
        0 <= j < draws.low@.len() ==> low_draw_wf(
            #[trigger] program.sampled_low_probability_bernoulli_groups@[j],
            nsymbols,
            shots,
        )
}

/// The family stands for family `j` of the program.
spec fn family_matches(
    program: &FactoredInstructionProgram,
    draws: ExogenousDraws,
    shots: int,
    j: int,
    family: Family,
) -> bool {
    &&& family_wf(family, program.nsymbols as int, shots)
    &&& family.bits is Row ==> family.conditions@.len() == 1
    &&& family.skip == family_skips(program, j)
    &&& family.skip ==> family.dense == family_dense(program, draws, j)
    &&& hits_of_family(family) == family_hits(program, draws, shots, j)
    &&& family.bits is Row ==> samples_row(program, j)
    &&& forall|c: i32| #[trigger] family.conditions@.contains(c) == family_has(program, j, c)
    &&& forall|c: i32, i: int|
        family.conditions@.contains(c) && 0 <= i < 64 * words_for_bits(shots)
            ==> #[trigger] family_bit(family, c, i) == drawn_bit(program, draws, shots, j, c, i)
}

fn exogenous_families(
    program: &FactoredInstructionProgram,
    draws: &ExogenousDraws,
    shots: usize,
) -> (r: Vec<Family>)
    requires
        draws_wf(program, *draws, shots as int),
        program.nsymbols <= i32::MAX,
        shots <= u32::MAX,
    ensures
        r@.len() == family_count(program),
        forall|j: int|
            0 <= j < r@.len() ==> family_matches(
                program,
                *draws,
                shots as int,
                j,
                #[trigger] r@[j],
            ),
{
    let ghost nsymbols = program.nsymbols as int;
    let ghost nd = program.sampled_categorical_distributions@.len() as int;
    let ghost nr = program.sampled_rare_categorical_groups@.len() as int;
    let ghost nb = program.sampled_bernoulli_conditions@.len() as int;
    let mut out: Vec<Family> = Vec::new();
    let mut a: usize = 0;
    while a < program.sampled_categorical_distributions.len()
        invariant
            a <= program.sampled_categorical_distributions@.len(),
            draws_wf(program, *draws, shots as int),
            nsymbols == program.nsymbols,
            nsymbols <= i32::MAX,
            shots <= u32::MAX,
            out@.len() == a,
            forall|j: int|
                0 <= j < out@.len() ==> family_matches(
                    program,
                    *draws,
                    shots as int,
                    j,
                    #[trigger] out@[j],
                ),
        decreases program.sampled_categorical_distributions@.len() - a,
    {
        assert(categorical_draw_wf(
            program.sampled_categorical_distributions@[a as int],
            draws.categorical@[a as int]@,
            nsymbols,
            shots as int,
        ));
        let family: Family = categorical_family(
            &program.sampled_categorical_distributions[a],
            &draws.categorical[a],
            shots,
            Ghost(nsymbols),
        );
        assert(family_matches(program, *draws, shots as int, a as int, family));
        out.push(family);
        a += 1;
    }
    let mut b: usize = 0;
    while b < program.sampled_rare_categorical_groups.len()
        invariant
            b <= program.sampled_rare_categorical_groups@.len(),
            draws_wf(program, *draws, shots as int),
            nd == program.sampled_categorical_distributions@.len(),
            nsymbols == program.nsymbols,
            nsymbols <= i32::MAX,
            shots <= u32::MAX,
            out@.len() == nd + b,
            forall|j: int|
                0 <= j < out@.len() ==> family_matches(
                    program,
                    *draws,
                    shots as int,
                    j,
                    #[trigger] out@[j],
                ),
        decreases program.sampled_rare_categorical_groups@.len() - b,
    {
        assert(rare_draw_wf(
            program.sampled_rare_categorical_groups@[b as int],
            draws.rare@[b as int],
            nsymbols,
            shots as int,
        ));
        let family: Family = rare_family(
            &program.sampled_rare_categorical_groups[b],
            &draws.rare[b],
            shots,
            Ghost(nsymbols),
        );
        assert(family_matches(program, *draws, shots as int, nd + b, family));
        out.push(family);
        b += 1;
    }
    let mut d: usize = 0;
    while d < program.sampled_bernoulli_conditions.len()
        invariant
            d <= program.sampled_bernoulli_conditions@.len(),
            draws_wf(program, *draws, shots as int),
            nd == program.sampled_categorical_distributions@.len(),
            nr == program.sampled_rare_categorical_groups@.len(),
            nsymbols == program.nsymbols,
            nsymbols <= i32::MAX,
            shots <= u32::MAX,
            out@.len() == nd + nr + d,
            forall|j: int|
                0 <= j < out@.len() ==> family_matches(
                    program,
                    *draws,
                    shots as int,
                    j,
                    #[trigger] out@[j],
                ),
        decreases program.sampled_bernoulli_conditions@.len() - d,
    {
        assert(enough_coins(draws.bernoulli@[d as int], words_for_bits(shots as int)));
        let row: Vec<u64> = generate_packed_biased_bits(&draws.bernoulli[d], shots);
        let condition: i32 = program.sampled_bernoulli_conditions[d];
        assert(0 < program.sampled_bernoulli_conditions@[d as int] <= nsymbols);
        let mut conditions: Vec<i32> = Vec::new();
        conditions.push(condition);
        let family: Family = Family {
            conditions,
            skip: false,
            dense: true,
            bits: FamilyBits::Row(row),
        };
        proof {
            assert forall|c: i32| #[trigger] family.conditions@.contains(c) == (c == condition) by {
                assert(family.conditions@[0] == condition);
            }
            assert(family_matches(program, *draws, shots as int, nd + nr + d, family));
        }
        out.push(family);
        d += 1;
    }
    let mut e: usize = 0;
    while e < program.sampled_low_probability_bernoulli_groups.len()
        invariant
            e <= program.sampled_low_probability_bernoulli_groups@.len(),
            draws_wf(program, *draws, shots as int),
            nd == program.sampled_categorical_distributions@.len(),
            nr == program.sampled_rare_categorical_groups@.len(),
            nb == program.sampled_bernoulli_conditions@.len(),
            nsymbols == program.nsymbols,
            nsymbols <= i32::MAX,
            shots <= u32::MAX,
            out@.len() == nd + nr + nb + e,
            forall|j: int|
                0 <= j < out@.len() ==> family_matches(
                    program,
                    *draws,
                    shots as int,
                    j,
                    #[trigger] out@[j],
                ),
        decreases program.sampled_low_probability_bernoulli_groups@.len() - e,
    {
        assert(low_draw_wf(
            program.sampled_low_probability_bernoulli_groups@[e as int],
            nsymbols,
            shots as int,
        ));
        let family: Family = low_family(
            &program.sampled_low_probability_bernoulli_groups[e],
            &draws.low[e],
            shots,
            Ghost(nsymbols),
        );
        assert(family_matches(program, *draws, shots as int, nd + nr + nb + e, family));
        out.push(family);
        e += 1;
    }
    out
}

/// Prepares the table's bitsets for a program.
pub fn prepare_presampled_exogenous_packed(
    samples: &mut PackedPresampledExogenous,
    program: &FactoredInstructionProgram,
) -> (r: Result<()>)
    requires
        exogenous_positive(program),
    ensures
        match r {
            Ok(_) => {
                &&& final(samples).prepared_for(program)
                &&& final(samples).nshots == 0
                &&& final(samples).shot_words == 0
                &&& final(samples).sparse_condition_words@ == final(samples).sparse_condition_template_words@
                &&& final(samples).value_words@.len() == 0
                &&& final(samples).sparse_hit_offsets@.len() == 0
                &&& final(samples).sparse_hit_shots@.len() == 0
            },
            Err(e) => {
                &&& exists|c: i32| #[trigger]
                    is_exogenous(program, c) && outside(c, words_for_bits(program.nsymbols as int))
                &&& e@ == "exogenous condition exceeds program symbol table"@
            },
        },
{
    samples.nshots = 0;
    samples.nsymbols = program.nsymbols;
    samples.shot_words = 0;
    match exogenous_assigned_words(program) {
        Ok(words) => {
            samples.exogenous_assigned_words = words;
        },
        Err(e) => {
            return Err(e);
        },
    }
    match sparse_condition_words(program) {
        Ok(words) => {
            samples.sparse_condition_template_words = words;
        },
        Err(e) => {
            proof {
                let c = choose|c: i32| #[trigger]
                    is_skip_condition(program, c) && outside(
                        c,
                        words_for_bits(program.nsymbols as int),
                    );
                assert(is_exogenous(program, c));
            }
            return Err(e);
        },
    }
    samples.sparse_condition_words = copy_words(&samples.sparse_condition_template_words);
    samples.value_words = Vec::new();
    samples.sparse_hit_offsets = Vec::new();
    samples.sparse_hit_shots = Vec::new();
    Ok(())
}

/// Refills a prepared table from a chunk's draws. Whatever form a condition takes,
/// dense or sparse, its value for every shot is the drawn one; which form it takes
/// depends on the program, the shots and the draws alone.
pub fn resample_prepared_exogenous_packed_in_place(
    samples: &mut PackedPresampledExogenous,
    program: &FactoredInstructionProgram,
    shots: usize,
    draws: &ExogenousDraws,
) -> (r: Result<()>)
    requires
        shots <= u32::MAX,
        shots + 63 <= usize::MAX,
        program.nsymbols < i32::MAX,
        program.nsymbols * words_for_bits(shots as int) * 8 <= usize::MAX,
        exogenous_disjoint(program),
        draws_wf(program, *draws, shots as int),
        old(samples).storage_matches(program) ==> old(samples).prepared_for(program),
    ensures
        match r {
            Ok(_) => {
                &&& old(samples).storage_matches(program)
                &&& final(samples).prepared_for(program)
                &&& final(samples).wf()
                &&& final(samples).filled()
                &&& final(samples).nshots == shots
                &&& resampled(program, *draws, shots as int, *final(samples))
                &&& forall|j: int, c: i32, i: int|
                    0 <= j < family_count(program) && #[trigger] family_has(program, j, c) && 0 <= i
                        < 64 * final(samples).shot_words ==> #[trigger] final(samples).sample_bit(
                        c,
                        i,
                    ) == drawn_bit(program, *draws, shots as int, j, c, i)
            },
            Err(e) => {
                &&& !old(samples).storage_matches(program)
                &&& *final(samples) == *old(samples)
                &&& e@ == "packed presampled exogenous storage was not prepared for this program"@
            },
        },
{
    let words: usize = symbol_word_count(program.nsymbols);
    if samples.nsymbols != program.nsymbols || samples.exogenous_assigned_words.len() != words
        || samples.sparse_condition_template_words.len() != words {
        return Err(
            TicitError::new("packed presampled exogenous storage was not prepared for this program"),
        );
    }
    let families: Vec<Family> = exogenous_families(program, draws, shots);
    proof {
        assert forall|j: int, k: int, c: i32|
            0 <= j < k < families@.len() && #[trigger] families@[j].conditions@.contains(c) implies
            !#[trigger] families@[k].conditions@.contains(c) by {
            assert(family_matches(program, *draws, shots as int, j, families@[j]));
            assert(family_matches(program, *draws, shots as int, k, families@[k]));
            assert(family_has(program, j, c));
            assert(!family_has(program, k, c));
        }
        assert forall|j: int| 0 <= j < families@.len() implies family_wf(
            #[trigger] families@[j],
            program.nsymbols as int,
            shots as int,
        ) && (families@[j].bits is Row ==> families@[j].conditions@.len() == 1) by {
            assert(family_matches(program, *draws, shots as int, j, families@[j]));
        }
        assert forall|j: int, c: i32|
            0 <= j < families@.len() && #[trigger] families@[j].conditions@.contains(c) implies row_bit(
            samples.sparse_condition_template_words@,
            symbol_bit(c as int),
        ) == families@[j].skip by {
            assert(family_matches(program, *draws, shots as int, j, families@[j]));
            lemma_family_range(families@[j], program.nsymbols as int, shots as int);
            assert(family_has(program, j, c));
            lemma_skip_family(program, j, c);
        }
    }
    fill_table(samples, shots, &families);
    proof {
        lemma_laid_out(program, *draws, shots as int, families@, *samples);
        assert forall|j: int, c: i32, i: int|
            0 <= j < family_count(program) && #[trigger] family_has(program, j, c) && 0 <= i < 64
                * samples.shot_words implies #[trigger] samples.sample_bit(c, i) == drawn_bit(
            program,
            *draws,
            shots as int,
            j,
            c,
            i,
        ) by {
            assert(family_matches(program, *draws, shots as int, j, families@[j]));
            assert(families@[j].conditions@.contains(c));
            assert(family_bit(families@[j], c, i) == drawn_bit(
                program,
                *draws,
                shots as int,
                j,
                c,
                i,
            ));
        }
    }
    Ok(())
}

impl PackedPresampledExogenous {
    /// The bitsets have the sizes that the program asks for.
    pub open spec fn storage_matches(&self, program: &FactoredInstructionProgram) -> bool {
        &&& self.nsymbols == program.nsymbols
        &&& self.exogenous_assigned_words@.len() == words_for_bits(program.nsymbols as int)
        &&& self.sparse_condition_template_words@.len() == words_for_bits(program.nsymbols as int)
    }
}

/// The families' hits are those of the program.
proof fn lemma_collected(
    program: &FactoredInstructionProgram,
    draws: ExogenousDraws,
    shots: int,
    families: Seq<Family>,
    n: int,
)
    requires
        families.len() == family_count(program),
        0 <= n <= families.len(),
        forall|j: int|
            0 <= j < families.len() ==> family_matches(program, draws, shots, j, #[trigger] families[j]),
    ensures
        collected(families, small_table(program.nsymbols as int, shots), n) == sparse_hits(
            program,
            draws,
            shots,
            n,
        ),
    decreases n,
{
    if n > 0 {
        lemma_collected(program, draws, shots, families, n - 1);
        assert(family_matches(program, draws, shots, n - 1, families[n - 1]));
    }
}

/// The filled table is laid out as the draws ask.
proof fn lemma_laid_out(
    program: &FactoredInstructionProgram,
    draws: ExogenousDraws,
    shots: int,
    families: Seq<Family>,
    samples: PackedPresampledExogenous,
)
    requires
        0 <= shots,
        program.nsymbols < i32::MAX,
        exogenous_disjoint(program),
        samples.prepared_for(program),
        samples.wf(),
        samples.filled(),
        samples.nshots == shots,
        samples.sparse_condition_words@.len() == samples.sparse_condition_template_words@.len(),
        no_late_bit(samples.sparse_condition_words@),
        families.len() == family_count(program),
        families_disjoint(families),
        forall|j: int|
            0 <= j < families.len() ==> family_matches(program, draws, shots, j, #[trigger] families[j]),
        forall|j: int, c: i32|
            0 <= j < families.len() && #[trigger] families[j].conditions@.contains(c)
                ==> samples.is_sparse(c) == kept_sparse(
                families[j],
                small_table(program.nsymbols as int, shots),
            ),
        forall|c: i32|
            0 < c && !some_family_has(families, c) ==> #[trigger] samples.is_sparse(c) == (row_bit(
                samples.sparse_condition_template_words@,
                symbol_bit(c as int),
            ) && !small_table(program.nsymbols as int, shots)),
        indexes(
            samples.sparse_hit_offsets@,
            samples.sparse_hit_shots@,
            program.nsymbols as int,
            collected(
                families,
                small_table(program.nsymbols as int, shots),
                families.len() as int,
            ),
        ),
        forall|j: int, c: i32, i: int|
            0 <= j < families.len() && #[trigger] families[j].conditions@.contains(c) && 0 <= i < 64
                * samples.shot_words ==> #[trigger] samples.sample_bit(c, i) == family_bit(
                families[j],
                c,
                i,
            ),
    ensures
        laid_out(program, draws, shots, samples),
{
    let small = small_table(program.nsymbols as int, shots);
    let n = program.nsymbols as int;
    lemma_collected(program, draws, shots, families, families.len() as int);
    assert forall|c: i32| c > 0 implies #[trigger] samples.is_sparse(c) == condition_sparse(
        program,
        draws,
        shots,
        c,
    ) by {
        if some_family_has(families, c) {
            let j = choose|j: int|
                0 <= j < families.len() && #[trigger] families[j].conditions@.contains(c);
            assert(family_matches(program, draws, shots, j, families[j]));
            assert(family_has(program, j, c));
            assert(kept_sparse(families[j], small) == family_sparse(program, draws, shots, j));
            if condition_sparse(program, draws, shots, c) {
                let k = choose|k: int|
                    0 <= k < family_count(program) && #[trigger] family_has(program, k, c)
                        && family_sparse(program, draws, shots, k);
                if k < j {
                    assert(!family_has(program, j, c));
                } else if j < k {
                    assert(!family_has(program, k, c));
                }
            }
        } else {
            lemma_unsampled(program, draws, shots, families, c);
            assert(row_bit(samples.sparse_condition_template_words@, symbol_bit(c as int))
                == is_skip_condition(program, c));
        }
    }
    assert forall|c: i32| c > 0 && #[trigger] samples.is_sparse(c) implies row_bit(
        samples.sparse_condition_template_words@,
        symbol_bit(c as int),
    ) && !small by {
        let k = choose|k: int|
            0 <= k < family_count(program) && #[trigger] family_has(program, k, c) && family_sparse(
                program,
                draws,
                shots,
                k,
            );
        lemma_skip_family(program, k, c);
        assert(is_skip_condition(program, c));
        assert(row_bit(samples.sparse_condition_template_words@, symbol_bit(c as int))
            == is_skip_condition(program, c));
    }
    assert forall|k: int| 0 <= k < families.len() implies family_wf(
        #[trigger] families[k],
        n,
        shots,
    ) by {
        assert(family_matches(program, draws, shots, k, families[k]));
    }
    assert forall|j: int, c: i32|
        0 <= j < family_count(program) && #[trigger] family_has(program, j, c) && family_sparse(
            program,
            draws,
            shots,
            j,
        ) implies samples.hits_of(c) == row_shots(family_hits(program, draws, shots, j), c - 1) by {
        assert(family_matches(program, draws, shots, j, families[j]));
        assert(families[j].conditions@.contains(c));
        lemma_family_range(families[j], n, shots);
        lemma_collected_row(families, small, families.len() as int, n, shots, j, c);
        assert(samples.hits_of(c) == row_shots(
            collected(families, small, families.len() as int),
            c - 1,
        ));
    }
    assert forall|j: int, c: i32, i: int|
        0 <= j < family_count(program) && #[trigger] family_has(program, j, c) && shots <= i < 64
            * samples.shot_words implies !#[trigger] samples.sample_bit(c, i) by {
        let family = families[j];
        assert(family_matches(program, draws, shots, j, family));
        assert(family.conditions@.contains(c));
        assert(family_wf(family, n, shots));
        assert(samples.sample_bit(c, i) == family_bit(family, c, i));
        match family.bits {
            FamilyBits::Hits(hits) => {
                lemma_hits_end(hits@, shots, c - 1, i);
            },
            FamilyBits::Row(_) => {
                assert(samples_row(program, j));
                assert(family_bit(family, c, i) == drawn_bit(program, draws, shots, j, c, i));
            },
        }
    }
}

/// A condition of no family is not drawn by skips.
proof fn lemma_unsampled(
    program: &FactoredInstructionProgram,
    draws: ExogenousDraws,
    shots: int,
    families: Seq<Family>,
    c: i32,
)
    requires
        families.len() == family_count(program),
        forall|j: int|
            0 <= j < families.len() ==> family_matches(program, draws, shots, j, #[trigger] families[j]),
        !some_family_has(families, c),
    ensures
        !is_skip_condition(program, c),
        !condition_sparse(program, draws, shots, c),
{
    let nd = program.sampled_categorical_distributions@.len() as int;
    let nr = program.sampled_rare_categorical_groups@.len() as int;
    let nb = program.sampled_bernoulli_conditions@.len() as int;
    let nl = program.sampled_low_probability_bernoulli_groups@.len() as int;
    assert forall|j: int| 0 <= j < family_count(program) implies !#[trigger] family_has(program, j, c) by {
        assert(family_matches(program, draws, shots, j, families[j]));
        assert(!families[j].conditions@.contains(c));
    }
    if rare_has(program, nr, c) {
        let m = choose|m: int|
            0 <= m < nr && sets_have(
                (#[trigger] program.sampled_rare_categorical_groups@[m]).conditions@,
                program.sampled_rare_categorical_groups@[m].conditions@.len() as int,
                c,
            );
        assert(family_has(program, nd + m, c));
    }
    if low_has(program, nl, c) {
        let m = choose|m: int|
            0 <= m < nl && (
            #[trigger] program.sampled_low_probability_bernoulli_groups@[m]).conditions@.contains(c);
        assert(family_has(program, nd + nr + nb + m, c));
    }
}

/// The skip families are exactly the geometric-skip conditions.
proof fn lemma_skip_family(program: &FactoredInstructionProgram, j: int, c: i32)
    requires
        exogenous_disjoint(program),
        0 <= j < family_count(program),
        family_has(program, j, c),
    ensures
        is_skip_condition(program, c) == family_skips(program, j),
{
    let nd = program.sampled_categorical_distributions@.len() as int;
    let nr = program.sampled_rare_categorical_groups@.len() as int;
    let nb = program.sampled_bernoulli_conditions@.len() as int;
    let nl = program.sampled_low_probability_bernoulli_groups@.len() as int;
    if family_skips(program, j) {
        if j < nd + nr {
            let g = program.sampled_rare_categorical_groups@[j - nd];
            assert(rare_has(program, nr, c));
        } else {
            assert(program.sampled_low_probability_bernoulli_groups@[j - nd - nr
                - nb].conditions@.contains(c));
            assert(low_has(program, nl, c));
        }
    } else if is_skip_condition(program, c) {
        let k = if rare_has(program, nr, c) {
            let m = choose|m: int|
                0 <= m < nr && sets_have(
                    (#[trigger] program.sampled_rare_categorical_groups@[m]).conditions@,
                    program.sampled_rare_categorical_groups@[m].conditions@.len() as int,
                    c,
                );
            nd + m
        } else {
            let m = choose|m: int|
                0 <= m < nl && (
                #[trigger] program.sampled_low_probability_bernoulli_groups@[m]).conditions@.contains(c);
            nd + nr + nb + m
        };
        assert(family_has(program, k, c));
        assert(k != j);
        if k < j {
            assert(!family_has(program, j, c));
        } else {
            assert(!family_has(program, k, c));
        }
    }
}

/// A table filled from one chunk's draws.
pub fn presample_exogenous_packed(
    program: &FactoredInstructionProgram,
    shots: usize,
    draws: &ExogenousDraws,
) -> (r: Result<PackedPresampledExogenous>)
    requires
        exogenous_positive(program),
        shots <= u32::MAX,
        shots + 63 <= usize::MAX,
        program.nsymbols < i32::MAX,
        program.nsymbols * words_for_bits(shots as int) * 8 <= usize::MAX,
        exogenous_disjoint(program),
        draws_wf(program, *draws, shots as int),
    ensures
        match r {
            Ok(samples) => {
                &&& samples.prepared_for(program)
                &&& samples.wf()
                &&& samples.filled()
                &&& samples.nshots == shots
                &&& resampled(program, *draws, shots as int, samples)
                &&& forall|j: int, c: i32, i: int|
                    0 <= j < family_count(program) && #[trigger] family_has(program, j, c) && 0 <= i
                        < 64 * samples.shot_words ==> #[trigger] samples.sample_bit(c, i)
                        == drawn_bit(program, *draws, shots as int, j, c, i)
            },
            Err(e) => {
                &&& exists|c: i32| #[trigger]
                    is_exogenous(program, c) && outside(c, words_for_bits(program.nsymbols as int))
                &&& e@ == "exogenous condition exceeds program symbol table"@
            },
        },
{
    let mut samples: PackedPresampledExogenous = PackedPresampledExogenous::new();
    match prepare_presampled_exogenous_packed(&mut samples, program) {
        Ok(_) => {},
        Err(e) => {
            return Err(e);
        },
    }
    match resample_prepared_exogenous_packed_in_place(&mut samples, program, shots, draws) {
        Ok(_) => Ok(samples),
        Err(e) => Err(e),
    }
}

// ---------------------------------------------------------------------------
// Laws
// ---------------------------------------------------------------------------
/// The hits determine their index.
#[verifier::spinoff_prover]
#[verifier::rlimit(40)]
proof fn lemma_index_unique(
    a: Seq<usize>,
    x: Seq<u32>,
    b: Seq<usize>,
    y: Seq<u32>,
    rows: int,
    hits: Seq<Hit>,
)
    requires
        rows >= 0,
        indexes(a, x, rows, hits),
        indexes(b, y, rows, hits),
        forall|k: int| 0 <= k < hits.len() ==> (#[trigger] hits[k]).row < rows,
    ensures
        a == b,
        x == y,
{
    assert forall|r: int| 0 <= r <= rows implies a[r] == b[r] by {
        assert(a[r] == hits_below(hits, r));
        assert(b[r] == hits_below(hits, r));
    }
    assert(a =~= b);
    lemma_hits_below_total(hits, rows);
    assert(a[rows] == hits_below(hits, rows));
    assert forall|k: int| 0 <= k < x.len() implies x[k] == y[k] by {
        lemma_indexed_row(a, hits, rows, k);
        let r = choose|r: int| 0 <= r < rows && a[r] <= k < #[trigger] a[r + 1];
        lemma_hits_below_monotone(hits, r + 1, rows);
        assert(a[r + 1] == hits_below(hits, r + 1));
        let p = x.subrange(a[r] as int, a[r + 1] as int);
        let q = y.subrange(a[r] as int, a[r + 1] as int);
        assert(p == row_shots(hits, r));
        assert(q == row_shots(hits, r));
        assert(x[k] == p[k - a[r]]);
        assert(y[k] == q[k - a[r]]);
    }
    assert(x =~= y);
}

/// Tables that are refilled for the same program from the same draws are the same,
/// whatever they held before: the same conditions are sparse, the hit index is equal
/// entry for entry, and every other sampled condition has equal rows.
pub proof fn law_nothing_of_an_earlier_chunk_is_left(
    program: &FactoredInstructionProgram,
    draws: ExogenousDraws,
    shots: int,
    s: PackedPresampledExogenous,
    t: PackedPresampledExogenous,
)
    requires
        resampled(program, draws, shots, s),
        resampled(program, draws, shots, t),
    ensures
        s.nshots == t.nshots,
        s.shot_words == t.shot_words,
        s.sparse_hit_offsets@ == t.sparse_hit_offsets@,
        s.sparse_hit_shots@ == t.sparse_hit_shots@,
        forall|c: i32| c > 0 ==> #[trigger] s.is_sparse(c) == t.is_sparse(c),
        s.sparse_condition_words@ == t.sparse_condition_words@,
        forall|j: int, c: i32, i: int|
            0 <= j < family_count(program) && #[trigger] family_has(program, j, c) && c > 0
                && !s.is_sparse(c) && 0 <= i < 64 * s.shot_words ==> #[trigger] plane_bit(
                s.value_words@,
                s.shot_words as int,
                c - 1,
                i,
            ) == plane_bit(t.value_words@, t.shot_words as int, c - 1, i),
{
    let n = program.nsymbols as int;
    let hits = sparse_hits(program, draws, shots, family_count(program));
    lemma_sparse_hits_inside(program, draws, shots, family_count(program));
    lemma_index_unique(
        s.sparse_hit_offsets@,
        s.sparse_hit_shots@,
        t.sparse_hit_offsets@,
        t.sparse_hit_shots@,
        n,
        hits,
    );
    assert forall|c: i32| c > 0 implies #[trigger] s.is_sparse(c) == t.is_sparse(c) by {
        assert(t.is_sparse(c) == condition_sparse(program, draws, shots, c));
    }
    let a = s.sparse_condition_words@;
    let b = t.sparse_condition_words@;
    reveal(no_late_bit);
    assert forall|w: int| 0 <= w < a.len() implies a[w] == b[w] by {
        assert forall|i: int| 0 <= i < 64 implies #[trigger] word_bit(a[w], i) == word_bit(
            b[w],
            i,
        ) by {
            let at = 64 * w + i;
            assert(at / 64 == w && at % 64 == i);
            if at < i32::MAX {
                let c = (at + 1) as i32;
                assert(symbol_bit(c as int) == at);
                assert(s.is_sparse(c) == t.is_sparse(c));
            } else {
                assert(!row_bit(a, at) && !row_bit(b, at));
            }
        }
        crate::bits::lemma_word_ext(a[w], b[w]);
    }
    assert(a =~= b);
    assert forall|j: int, c: i32, i: int|
        0 <= j < family_count(program) && #[trigger] family_has(program, j, c) && c > 0
            && !s.is_sparse(c) && 0 <= i < 64 * s.shot_words implies #[trigger] plane_bit(
        s.value_words@,
        s.shot_words as int,
        c - 1,
        i,
    ) == plane_bit(t.value_words@, t.shot_words as int, c - 1, i) by {
        assert(s.sample_bit(c, i) == drawn_bit(program, draws, shots, j, c, i));
        assert(t.sample_bit(c, i) == drawn_bit(program, draws, shots, j, c, i));
        assert(s.is_sparse(c) == t.is_sparse(c));
    }
}

/// The hits are on rows of the table and on shots of the chunk.
pub open spec fn hits_inside(hits: Seq<Hit>, nsymbols: int, shots: int) -> bool {
    forall|k: int|
        0 <= k < hits.len() ==> (#[trigger] hits[k]).row < nsymbols && hits[k].shot < shots
}

proof fn lemma_hits_inside_concat(a: Seq<Hit>, b: Seq<Hit>, nsymbols: int, shots: int)
    requires
        hits_inside(a, nsymbols, shots),
        hits_inside(b, nsymbols, shots),
    ensures
        hits_inside(a + b, nsymbols, shots),
{
    let all = a + b;
    assert forall|k: int| 0 <= k < all.len() implies (#[trigger] all[k]).row < nsymbols
        && all[k].shot < shots by {
        if k < a.len() {
            assert(all[k] == a[k]);
        } else {
            assert(all[k] == b[k - a.len()]);
        }
    }
}

proof fn lemma_rare_inside(
    g: RareCategoricalSampleGroup,
    positions: Seq<u64>,
    events: Seq<usize>,
    n: int,
    nsymbols: int,
    shots: int,
)
    requires
        0 < g.conditions@.len(),
        forall|k: int|
            0 <= k < g.conditions@.len() ==> drawable((#[trigger] g.conditions@[k])@, nsymbols),
        forall|k: int|
            0 <= k < n ==> #[trigger] positions[k] < shots * g.conditions@.len(),
        shots <= u32::MAX,
        nsymbols <= i32::MAX,
    ensures
        hits_inside(rare_hits(g, positions, events, n), nsymbols, shots),
    decreases n,
{
    if n > 0 {
        lemma_rare_inside(g, positions, events, n - 1, nsymbols, shots);
        let sets = g.conditions@.len() as int;
        let p = positions[n - 1] as int;
        let set = g.conditions@[p % sets]@;
        assert(0 <= p % sets < sets) by (nonlinear_arith)
            requires
                0 < sets,
        ;
        assert(0 <= p / sets < shots) by (nonlinear_arith)
            requires
                0 <= p < shots * sets,
                0 < sets,
        ;
        assert(drawable(set, nsymbols));
        let row = g.assignments@[g.event_rows@[events[n - 1] as int] as int]@;
        lemma_assignment_hits(set, row, p / sets, set.len() as int, nsymbols);
        lemma_hits_inside_concat(
            rare_hits(g, positions, events, n - 1),
            assignment_hits(set, row, p / sets, set.len() as int),
            nsymbols,
            shots,
        );
    }
}

proof fn lemma_low_inside(
    g: BernoulliSampleGroup,
    positions: Seq<u64>,
    n: int,
    nsymbols: int,
    shots: int,
)
    requires
        0 < g.conditions@.len(),
        drawable(g.conditions@, nsymbols),
        forall|k: int|
            0 <= k < n ==> #[trigger] positions[k] < shots * g.conditions@.len(),
        shots <= u32::MAX,
        nsymbols <= i32::MAX,
    ensures
        hits_inside(low_hits(g, positions, n), nsymbols, shots),
    decreases n,
{
    if n > 0 {
        lemma_low_inside(g, positions, n - 1, nsymbols, shots);
        let len = g.conditions@.len() as int;
        let p = positions[n - 1] as int;
        assert(0 <= p % len < len) by (nonlinear_arith)
            requires
                0 < len,
        ;
        assert(0 <= p / len < shots) by (nonlinear_arith)
            requires
                0 <= p < shots * len,
                0 < len,
        ;
        let c = g.conditions@[p % len];
        assert(0 < c <= nsymbols);
        let head = low_hits(g, positions, n - 1);
        let all = low_hits(g, positions, n);
        assert(all == head.push(hit_on(c, p / len)));
        assert forall|k: int| 0 <= k < all.len() implies (#[trigger] all[k]).row < nsymbols
            && all[k].shot < shots by {
            if k < head.len() {
                assert(all[k] == head[k]);
            }
        }
    }
}

/// A family that is drawn by geometric skips, rare or of low probability, strikes
/// only shots of its chunk, and a condition of it is set for a shot exactly where the
/// hits strike the two an odd number of times.
pub proof fn law_skips_strike_shots_of_the_chunk(
    program: &FactoredInstructionProgram,
    draws: ExogenousDraws,
    shots: int,
    j: int,
)
    requires
        draws_wf(program, draws, shots),
        0 <= shots <= u32::MAX,
        program.nsymbols < i32::MAX,
        0 <= j < family_count(program),
        family_skips(program, j),
    ensures
        hits_inside(family_hits(program, draws, shots, j), program.nsymbols as int, shots),
        forall|c: i32, i: int| #[trigger]
            drawn_bit(program, draws, shots, j, c, i) == hit_parity(
                family_hits(program, draws, shots, j),
                c - 1,
                i,
            ),
{
    let nsymbols = program.nsymbols as int;
    let nd = program.sampled_categorical_distributions@.len() as int;
    let nr = program.sampled_rare_categorical_groups@.len() as int;
    let nb = program.sampled_bernoulli_conditions@.len() as int;
    if j < nd + nr {
        let g = program.sampled_rare_categorical_groups@[j - nd];
        let draw = draws.rare@[j - nd];
        assert(rare_draw_wf(g, draw, nsymbols, shots));
        let total = shots * g.conditions@.len() as int;
        assert(total >= 0) by (nonlinear_arith)
            requires
                total == shots * g.conditions@.len() as int,
                shots >= 0,
        ;
        lemma_skips_bounded(draw.gaps@, total, 0);
        let positions = skips_from(draw.gaps@, total, 0);
        if g.conditions@.len() == 0 {
            assert(total == 0) by (nonlinear_arith)
                requires
                    total == shots * g.conditions@.len() as int,
                    g.conditions@.len() == 0,
            ;
            assert(positions.len() == 0);
        } else {
            lemma_rare_inside(g, positions, draw.events@, positions.len() as int, nsymbols, shots);
        }
    } else {
        let g = program.sampled_low_probability_bernoulli_groups@[j - nd - nr - nb];
        let draw = draws.low@[j - nd - nr - nb];
        assert(low_draw_wf(g, nsymbols, shots));
        let total = shots * g.conditions@.len() as int;
        assert(total >= 0) by (nonlinear_arith)
            requires
                total == shots * g.conditions@.len() as int,
                shots >= 0,
        ;
        lemma_skips_bounded(draw.gaps@, total, 0);
        let positions = skips_from(draw.gaps@, total, 0);
        if g.conditions@.len() == 0 {
            assert(total == 0) by (nonlinear_arith)
                requires
                    total == shots * g.conditions@.len() as int,
                    g.conditions@.len() == 0,
            ;
            assert(positions.len() == 0);
        } else {
            lemma_low_inside(g, positions, positions.len() as int, nsymbols, shots);
        }
    }
}

/// The sparse hits are on rows of the table and on shots of the chunk.
proof fn lemma_sparse_hits_inside(
    program: &FactoredInstructionProgram,
    draws: ExogenousDraws,
    shots: int,
    n: int,
)
    requires
        draws_wf(program, draws, shots),
        0 <= shots <= u32::MAX,
        program.nsymbols < i32::MAX,
        n <= family_count(program),
    ensures
        hits_inside(sparse_hits(program, draws, shots, n), program.nsymbols as int, shots),
    decreases n,
{
    if n > 0 {
        lemma_sparse_hits_inside(program, draws, shots, n - 1);
        if family_sparse(program, draws, shots, n - 1) {
            law_skips_strike_shots_of_the_chunk(program, draws, shots, n - 1);
            lemma_hits_inside_concat(
                sparse_hits(program, draws, shots, n - 1),
                family_hits(program, draws, shots, n - 1),
                program.nsymbols as int,
                shots,
            );
        }
    }
}

proof fn lemma_row_shots_inside(hits: Seq<Hit>, nsymbols: int, shots: int, row: int)
    requires
        hits_inside(hits, nsymbols, shots),
    ensures
        forall|k: int|
            0 <= k < row_shots(hits, row).len() ==> #[trigger] row_shots(hits, row)[k] < shots,
    decreases hits.len(),
{
    if hits.len() > 0 {
        assert(hits_inside(hits.drop_last(), nsymbols, shots)) by {
            assert forall|k: int| 0 <= k < hits.drop_last().len() implies (
            #[trigger] hits.drop_last()[k]).row < nsymbols && hits.drop_last()[k].shot < shots by {
                assert(hits.drop_last()[k] == hits[k]);
            }
        }
        lemma_row_shots_inside(hits.drop_last(), nsymbols, shots, row);
        assert(hits[hits.len() - 1].shot < shots);
        let rest = row_shots(hits.drop_last(), row);
        let all = row_shots(hits, row);
        assert forall|k: int| 0 <= k < all.len() implies #[trigger] all[k] < shots by {
            if k < rest.len() {
                assert(all[k] == rest[k]);
            }
        }
    }
}

/// The draws are the same but for the form they call for.
pub open spec fn same_draws(a: ExogenousDraws, b: ExogenousDraws) -> bool {
    &&& a.categorical@.len() == b.categorical@.len()
    &&& forall|j: int|
        0 <= j < a.categorical@.len() ==> (#[trigger] a.categorical@[j])@ == b.categorical@[j]@
    &&& a.rare@.len() == b.rare@.len()
    &&& forall|j: int|
        0 <= j < a.rare@.len() ==> (#[trigger] a.rare@[j]).gaps@ == b.rare@[j].gaps@
            && a.rare@[j].events@ == b.rare@[j].events@
    &&& a.bernoulli@ == b.bernoulli@
    &&& a.low@.len() == b.low@.len()
    &&& forall|j: int| 0 <= j < a.low@.len() ==> (#[trigger] a.low@[j]).gaps@ == b.low@[j].gaps@
}

/// A condition of a set is a symbol.
proof fn lemma_set_conditions(sets: Seq<Vec<i32>>, n: int, c: i32, nsymbols: int)
    requires
        n <= sets.len(),
        forall|k: int| 0 <= k < sets.len() ==> drawable((#[trigger] sets[k])@, nsymbols),
        sets_have(sets, n, c),
    ensures
        0 < c <= nsymbols,
{
}

/// A condition of a family is a symbol.
proof fn lemma_family_drawable(
    program: &FactoredInstructionProgram,
    draws: ExogenousDraws,
    shots: int,
    j: int,
    c: i32,
)
    requires
        draws_wf(program, draws, shots),
        0 <= j < family_count(program),
        family_skips(program, j),
        family_has(program, j, c),
    ensures
        0 < c <= program.nsymbols,
{
    let nsymbols = program.nsymbols as int;
    let nd = program.sampled_categorical_distributions@.len() as int;
    let nr = program.sampled_rare_categorical_groups@.len() as int;
    let nb = program.sampled_bernoulli_conditions@.len() as int;
    if j < nd + nr {
        let g = program.sampled_rare_categorical_groups@[j - nd];
        assert(rare_draw_wf(g, draws.rare@[j - nd], nsymbols, shots));
        lemma_set_conditions(g.conditions@, g.conditions@.len() as int, c, nsymbols);
    } else {
        let g = program.sampled_low_probability_bernoulli_groups@[j - nd - nr - nb];
        let draw = draws.low@[j - nd - nr - nb];
        assert(low_draw_wf(g, nsymbols, shots));
        let k = g.conditions@.index_of(c);
        assert(g.conditions@[k] == c);
    }
}

/// The dense and the sparse form of one draw hold the same bits: a bit of the dense
/// row is set exactly where the sparse form hits the shot an odd number of times, and
/// the sparse form hits no shot outside the chunk.
pub proof fn law_dense_and_sparse_hold_the_same_bits(
    program: &FactoredInstructionProgram,
    a: ExogenousDraws,
    b: ExogenousDraws,
    shots: int,
    s: PackedPresampledExogenous,
    t: PackedPresampledExogenous,
    j: int,
    c: i32,
    i: int,
)
    requires
        resampled(program, a, shots, s),
        resampled(program, b, shots, t),
        same_draws(a, b),
        0 <= j < family_count(program),
        family_has(program, j, c),
        0 <= i < 64 * s.shot_words,
    ensures
        s.sample_bit(c, i) == t.sample_bit(c, i),
        !s.is_sparse(c) && t.is_sparse(c) ==> plane_bit(
            s.value_words@,
            s.shot_words as int,
            c - 1,
            i,
        ) == shot_parity(t.hits_of(c), i),
        family_sparse(program, b, shots, j) ==> t.is_sparse(c) && shot_parity(t.hits_of(c), i)
            == hit_parity(family_hits(program, b, shots, j), c - 1, i) && forall|k: int|
            0 <= k < t.hits_of(c).len() ==> #[trigger] t.hits_of(c)[k] < shots,
{
    if family_sparse(program, b, shots, j) {
        let hits = family_hits(program, b, shots, j);
        law_skips_strike_shots_of_the_chunk(program, b, shots, j);
        lemma_row_shots_inside(hits, program.nsymbols as int, shots, c - 1);
        lemma_row_shots_parity(hits, c - 1, i);
        lemma_family_drawable(program, b, shots, j, c);
        assert(condition_sparse(program, b, shots, c));
        assert(t.is_sparse(c));
    }
    assert(s.sample_bit(c, i) == drawn_bit(program, a, shots, j, c, i));
    assert(t.sample_bit(c, i) == drawn_bit(program, b, shots, j, c, i));
    let nd = program.sampled_categorical_distributions@.len() as int;
    let nr = program.sampled_rare_categorical_groups@.len() as int;
    let nb = program.sampled_bernoulli_conditions@.len() as int;
    if j < nd {
        assert(a.categorical@[j]@ == b.categorical@[j]@);
    } else if j < nd + nr {
        assert(a.rare@[j - nd].gaps@ == b.rare@[j - nd].gaps@);
    } else if j >= nd + nr + nb {
        assert(a.low@[j - nd - nr - nb].gaps@ == b.low@[j - nd - nr - nb].gaps@);
    }
}

} // verus!
