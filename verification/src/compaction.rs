//! Compaction: the columns of a batch, reduced to the surviving shots.
use vstd::prelude::*;
use crate::bits::{
    lemma_ones_bound, lemma_row_bit_update, ones_below, row_bit, word_bit, words_for_bits,
};
use crate::executor::filled_list;
use crate::exogenous::{is_live_mask, live_word_mask_for_shots};
use crate::planes::{lemma_plane_index, lemma_plane_unique, lemma_plane_update, plane_bit, plane_offset};
use crate::signs::{lemma_shift_down, lemma_shift_up};

verus! {

broadcast use crate::bits::group_word_bits;

// ---------------------------------------------------------------------------
// Survivors
// ---------------------------------------------------------------------------
/// The kept positions below `n`, ascending.
pub open spec fn survivors(keep: Seq<u64>, n: int) -> Seq<int>
    decreases n,
{
    if n <= 0 {
        Seq::empty()
    } else if row_bit(keep, n - 1) {
        survivors(keep, n - 1).push(n - 1)
    } else {
        survivors(keep, n - 1)
    }
}

/// The survivors are kept positions in ascending order, each at its rank.
pub proof fn lemma_survivors(keep: Seq<u64>, n: int)
    requires
        0 <= n,
    ensures
        survivors(keep, n).len() <= n,
        forall|j: int|
            0 <= j < survivors(keep, n).len() ==> j <= #[trigger] survivors(keep, n)[j] < n && row_bit(
                keep,
                survivors(keep, n)[j],
            ),
        forall|i: int, j: int|
            0 <= i < j < survivors(keep, n).len() ==> survivors(keep, n)[i] < survivors(keep, n)[j],
    decreases n,
{
    if n > 0 {
        lemma_survivors(keep, n - 1);
        let a = survivors(keep, n - 1);
        let b = survivors(keep, n);
        assert forall|j: int| 0 <= j < b.len() implies j <= #[trigger] b[j] < n && row_bit(keep, b[j]) by {
            if j < a.len() {
                assert(b[j] == a[j]);
            }
        }
        assert forall|i: int, j: int| 0 <= i < j < b.len() implies b[i] < b[j] by {
            assert(b[i] == a[i]);
            if j < a.len() {
                assert(b[j] == a[j]);
            }
        }
    }
}

/// A kept position stands at its rank.
pub proof fn lemma_survivor_rank(keep: Seq<u64>, s: int, n: int)
    requires
        0 <= s < n,
        row_bit(keep, s),
    ensures
        survivors(keep, s).len() < survivors(keep, n).len(),
        survivors(keep, n)[survivors(keep, s).len() as int] == s,
    decreases n,
{
    if s < n - 1 {
        lemma_survivor_rank(keep, s, n - 1);
    }
}

/// The survivors are the positions that keep their rank.
pub proof fn lemma_rank_of(keep: Seq<u64>, n: int, j: int)
    requires
        0 <= n,
        0 <= j < survivors(keep, n).len(),
    ensures
        survivors(keep, survivors(keep, n)[j]).len() == j,
{
    lemma_survivors(keep, n);
    let s = survivors(keep, n)[j];
    lemma_survivor_rank(keep, s, n);
    let r = survivors(keep, s).len() as int;
    if r < j {
        assert(survivors(keep, n)[r] < survivors(keep, n)[j]);
    } else if j < r {
        assert(survivors(keep, n)[j] < survivors(keep, n)[r]);
    }
}

pub proof fn lemma_survivors_ext(a: Seq<u64>, b: Seq<u64>, n: int)
    requires
        forall|s: int| 0 <= s < n ==> #[trigger] row_bit(a, s) == row_bit(b, s),
    ensures
        survivors(a, n) == survivors(b, n),
    decreases n,
{
    if n > 0 {
        assert(row_bit(a, n - 1) == row_bit(b, n - 1));
        lemma_survivors_ext(a, b, n - 1);
    }
}

/// Everybody survives where everybody is kept.
pub proof fn lemma_survivors_all(keep: Seq<u64>, n: int)
    requires
        0 <= n,
        forall|s: int| 0 <= s < n ==> #[trigger] row_bit(keep, s),
    ensures
        survivors(keep, n).len() == n,
        forall|s: int| 0 <= s < n ==> #[trigger] survivors(keep, n)[s] == s,
    decreases n,
{
    if n > 0 {
        lemma_survivors_all(keep, n - 1);
    }
}

/// The rank within a word counts its ones.
proof fn lemma_rank_in_word(keep: Seq<u64>, word: int, i: int)
    requires
        0 <= word < keep.len(),
        0 <= i <= 64,
    ensures
        survivors(keep, 64 * word + i).len() == survivors(keep, 64 * word).len() + ones_below(
            keep[word],
            i,
        ),
    decreases i,
{
    if i > 0 {
        lemma_rank_in_word(keep, word, i - 1);
        let s = 64 * word + i - 1;
        assert(s / 64 == word && s % 64 == i - 1);
    }
}

/// Kept bits past the last position do not count.
proof fn lemma_survivors_masked(keep: Seq<u64>, masked: Seq<u64>, n: int, m: int)
    requires
        0 <= n <= m,
        masked.len() == keep.len(),
        forall|s: int| 0 <= s < m ==> #[trigger] row_bit(masked, s) == (row_bit(keep, s) && s < n),
    ensures
        survivors(masked, m) == survivors(keep, n),
    decreases m,
{
    if n < m {
        assert(!row_bit(masked, m - 1));
        lemma_survivors_masked(keep, masked, n, m - 1);
    } else {
        lemma_survivors_ext(masked, keep, n);
    }
}

/// The number of kept shots.
pub fn count_live_bits(bits: &[u64], shots: usize) -> (r: usize)
    requires
        bits@.len() >= words_for_bits(shots as int),
    ensures
        r == survivors(bits@, shots as int).len(),
{
    let nwords: usize = crate::bits::bit_word_count(shots);
    let mut count: usize = 0;
    let mut word: usize = 0;
    let ghost masked = Seq::new(
        nwords as nat,
        |w: int| masked_word(bits@, shots as int, w),
    );
    proof {
        lemma_masked_row(bits@, shots as int, nwords as int);
    }
    while word < nwords
        invariant
            word <= nwords,
            nwords == words_for_bits(shots as int),
            bits@.len() >= nwords,
            masked == Seq::new(nwords as nat, |w: int| masked_word(bits@, shots as int, w)),
            count == survivors(masked, 64 * word).len(),
            count <= shots,
            survivors(masked, 64 * nwords) == survivors(bits@, shots as int),
        decreases nwords - word,
    {
        let mask: u64 = live_word_mask_for_shots(shots, word);
        let kept: u64 = bits[word] & mask;
        let ones: u32 = kept.count_ones();
        proof {
            lemma_masked_unique(bits@, shots as int, word as int, mask);
            assert(masked[word as int] == kept);
            lemma_rank_in_word(masked, word as int, 64);
            lemma_survivors_grow(masked, 64 * (word + 1), 64 * nwords as int);
            lemma_survivors(bits@, shots as int);
        }
        count += ones as usize;
        word += 1;
    }
    count
}

/// More positions, more survivors.
pub proof fn lemma_survivors_grow(keep: Seq<u64>, m: int, n: int)
    requires
        m <= n,
    ensures
        survivors(keep, m).len() <= survivors(keep, n).len(),
    decreases n - m,
{
    if m < n {
        lemma_survivors_grow(keep, m, n - 1);
    }
}

/// A word of the kept row with the bits past the last shot cleared.
spec fn masked_word(keep: Seq<u64>, shots: int, word: int) -> u64 {
    keep[word] & live_mask(shots, word)
}

spec fn live_mask(shots: int, word: int) -> u64 {
    choose|mask: u64| is_live_mask(mask, shots, word)
}

proof fn lemma_masked_unique(keep: Seq<u64>, shots: int, word: int, mask: u64)
    requires
        is_live_mask(mask, shots, word),
    ensures
        masked_word(keep, shots, word) == keep[word] & mask,
{
    let other = live_mask(shots, word);
    assert(is_live_mask(other, shots, word));
    assert forall|i: int| 0 <= i < 64 implies #[trigger] word_bit(mask, i) == word_bit(other, i) by {
        assert(word_bit(other, i) == (64 * word + i < shots));
    }
    crate::bits::lemma_word_ext(mask, other);
}

/// A live mask exists for every word.
proof fn lemma_live_mask(shots: int, word: int)
    ensures
        is_live_mask(live_mask(shots, word), shots, word),
{
    let left = shots - 64 * word;
    if left >= 64 {
        assert(is_live_mask(0xffff_ffff_ffff_ffffu64, shots, word));
    } else if left <= 0 {
        assert(is_live_mask(0u64, shots, word));
    } else {
        lemma_low_mask(left);
        let mask = low_mask(left);
        assert(is_live_mask(mask, shots, word)) by {
            assert forall|i: int| 0 <= i < 64 implies #[trigger] word_bit(mask, i) == (64 * word + i
                < shots) by {}
        }
    }
}

/// The word with its lowest `bits` bits set.
spec fn low_mask(bits: int) -> u64
    decreases bits,
{
    if bits <= 0 {
        0
    } else {
        low_mask(bits - 1) | (1u64 << ((bits - 1) as u64))
    }
}

proof fn lemma_low_mask(bits: int)
    requires
        0 <= bits <= 64,
    ensures
        forall|i: int| 0 <= i < 64 ==> #[trigger] word_bit(low_mask(bits), i) == (i < bits),
    decreases bits,
{
    if bits > 0 {
        lemma_low_mask(bits - 1);
        assert forall|i: int| 0 <= i < 64 implies #[trigger] word_bit(low_mask(bits), i) == (i < bits) by {
            assert(word_bit(low_mask(bits - 1), i) == (i < bits - 1));
        }
    }
}

proof fn lemma_masked_row(keep: Seq<u64>, shots: int, nwords: int)
    requires
        0 <= shots,
        nwords == words_for_bits(shots),
        keep.len() >= nwords,
    ensures
        survivors(
            Seq::new(nwords as nat, |w: int| masked_word(keep, shots, w)),
            64 * nwords,
        ) == survivors(keep, shots),
{
    let masked = Seq::new(nwords as nat, |w: int| masked_word(keep, shots, w));
    let head = keep.take(nwords);
    assert forall|s: int| 0 <= s < 64 * nwords implies #[trigger] row_bit(masked, s) == (row_bit(head, s)
        && s < shots) by {
        lemma_live_mask(shots, s / 64);
        let mask = live_mask(shots, s / 64);
        assert(word_bit(mask, s % 64) == (64 * (s / 64) + s % 64 < shots));
        assert(head[s / 64] == keep[s / 64]);
    }
    lemma_survivors_masked(head, masked, shots, 64 * nwords);
    assert forall|s: int| 0 <= s < shots implies #[trigger] row_bit(head, s) == row_bit(keep, s) by {
        assert(head[s / 64] == keep[s / 64]);
    }
    lemma_survivors_ext(head, keep, shots);
}

/// Lists the kept shots.
pub fn collect_live_sources(keep_bits: &[u64], shots: usize) -> (r: Vec<usize>)
    ensures
        r@.len() == survivors(keep_bits@, shots as int).len(),
        forall|j: int|
            0 <= j < r@.len() ==> #[trigger] r@[j] == survivors(keep_bits@, shots as int)[j],
{
    let mut out: Vec<usize> = Vec::new();
    let mut shot: usize = 0;
    while shot < shots
        invariant
            shot <= shots,
            out@.len() == survivors(keep_bits@, shot as int).len(),
            forall|j: int|
                0 <= j < out@.len() ==> #[trigger] out@[j] == survivors(keep_bits@, shot as int)[j],
        decreases shots - shot,
    {
        if crate::symbols::batch_bit_at(keep_bits, shot) {
            out.push(shot);
        }
        shot += 1;
    }
    out
}

// ---------------------------------------------------------------------------
// Bit compression
// ---------------------------------------------------------------------------
/// Moves the kept bits of a word together: bit `i` goes to its rank among the kept
/// bits.
pub fn compress_bits(bits: u64, keep_mask: u64) -> (r: u64)
    ensures
        forall|i: int|
            0 <= i < 64 && #[trigger] word_bit(keep_mask, i) ==> word_bit(
                r,
                ones_below(keep_mask, i) as int,
            ) == word_bit(bits, i),
        forall|j: int| ones_below(keep_mask, 64) <= j < 64 ==> !#[trigger] word_bit(r, j),
{
    let mut out: u64 = 0;
    let mut dest: u64 = 0;
    let mut i: u64 = 0;
    while i < 64
        invariant
            i <= 64,
            dest == ones_below(keep_mask, i as int),
            dest <= i,
            forall|j: int| dest <= j < 64 ==> !#[trigger] word_bit(out, j),
            forall|b: int|
                0 <= b < i && #[trigger] word_bit(keep_mask, b) ==> ones_below(keep_mask, b) < dest
                    && word_bit(out, ones_below(keep_mask, b) as int) == word_bit(bits, b),
        decreases 64 - i,
    {
        let ghost before = out;
        if (keep_mask >> i) & 1 == 1 {
            assert(word_bit(keep_mask, i as int));
            if (bits >> i) & 1 == 1 {
                out = out | (1u64 << dest);
            }
            proof {
                assert(ones_below(keep_mask, i + 1) == dest + 1);
                assert forall|j: int| dest + 1 <= j < 64 implies !#[trigger] word_bit(out, j) by {
                    assert(!word_bit(before, j));
                }
                assert forall|b: int| 0 <= b < i + 1 && #[trigger] word_bit(keep_mask, b) implies
                    ones_below(keep_mask, b) < dest + 1 && word_bit(
                    out,
                    ones_below(keep_mask, b) as int,
                ) == word_bit(bits, b) by {
                    if b < i {
                        assert(ones_below(keep_mask, b) < dest);
                    } else {
                        assert(!word_bit(before, dest as int));
                    }
                }
            }
            dest += 1;
        } else {
            assert(!word_bit(keep_mask, i as int));
        }
        i += 1;
    }
    out
}

/// Appends the lowest `nbits` bits of a word to a row whose bits from `dest_bit` on
/// are clear.
pub fn append_compressed_bits(out: &mut Vec<u64>, dest_bit: usize, compressed: u64, nbits: usize) -> (r:
    usize)
    requires
        nbits <= 64,
        dest_bit + nbits <= 64 * old(out)@.len(),
        dest_bit + nbits <= usize::MAX,
        forall|i: int| dest_bit <= i < 64 * old(out)@.len() ==> !#[trigger] row_bit(old(out)@, i),
        forall|j: int| nbits <= j < 64 ==> !#[trigger] word_bit(compressed, j),
    ensures
        final(out)@.len() == old(out)@.len(),
        r == dest_bit + nbits,
        forall|i: int|
            0 <= i < 64 * final(out)@.len() ==> #[trigger] row_bit(final(out)@, i) == if dest_bit <= i
                < dest_bit + nbits {
                word_bit(compressed, i - dest_bit)
            } else {
                row_bit(old(out)@, i)
            },
{
    if nbits == 0 {
        return dest_bit;
    }
    let word: usize = dest_bit / 64;
    let shift: usize = dest_bit % 64;
    let ghost start = out@;
    let low: u64 = out[word] | (compressed << (shift as u64));
    out.set(word, low);
    let ghost mid = out@;
    proof {
        assert forall|i: int| 0 <= i < 64 * out@.len() implies #[trigger] row_bit(out@, i) == if i / 64
            == word && i % 64 >= shift {
            word_bit(compressed, i % 64 - shift)
        } else {
            row_bit(start, i)
        } by {
            lemma_row_bit_update(start, word as int, low, i);
            if i / 64 == word {
                lemma_shift_up(compressed, shift as int, i % 64);
                if i % 64 >= shift {
                    assert(i >= dest_bit);
                    assert(!row_bit(start, i));
                }
            }
        }
    }
    if shift != 0 && nbits > 64 - shift {
        let up: u64 = (64 - shift) as u64;
        let high: u64 = out[word + 1] | (compressed >> up);
        out.set(word + 1, high);
        proof {
            assert forall|i: int| 0 <= i < 64 * out@.len() implies #[trigger] row_bit(out@, i)
                == if dest_bit <= i < dest_bit + nbits {
                word_bit(compressed, i - dest_bit)
            } else {
                row_bit(start, i)
            } by {
                lemma_row_bit_update(mid, word + 1, high, i);
                assert(row_bit(mid, i) == if i / 64 == word && i % 64 >= shift {
                    word_bit(compressed, i % 64 - shift)
                } else {
                    row_bit(start, i)
                });
                if i / 64 == word + 1 {
                    lemma_shift_down(compressed, 64 - shift, i % 64);
                    assert(!row_bit(start, i));
                    if i < dest_bit + nbits {
                        assert(i - dest_bit == i % 64 + (64 - shift));
                    } else if i % 64 + (64 - shift) < 64 {
                        assert(!word_bit(compressed, i % 64 + (64 - shift)));
                    }
                } else if i / 64 == word && i % 64 >= shift {
                    assert(i - dest_bit == i % 64 - shift);
                }
            }
        }
    } else {
        proof {
            assert forall|i: int| 0 <= i < 64 * out@.len() implies #[trigger] row_bit(out@, i)
                == if dest_bit <= i < dest_bit + nbits {
                word_bit(compressed, i - dest_bit)
            } else {
                row_bit(start, i)
            } by {
                assert(row_bit(mid, i) == if i / 64 == word && i % 64 >= shift {
                    word_bit(compressed, i % 64 - shift)
                } else {
                    row_bit(start, i)
                });
                if i / 64 == word && i % 64 >= shift {
                    assert(i - dest_bit == i % 64 - shift);
                    if i >= dest_bit + nbits {
                        assert(!word_bit(compressed, i - dest_bit));
                        assert(!row_bit(start, i));
                    }
                } else if dest_bit <= i < dest_bit + nbits {
                    assert(false);
                }
            }
        }
    }
    dest_bit + nbits
}

/// Compresses one plane down to the kept shots; the rest of the plane is cleared.
#[verifier::rlimit(40)]
pub fn compact_plane(
    columns: &mut Vec<u64>,
    plane: usize,
    stride_words: usize,
    old_shots: usize,
    keep_bits: &[u64],
    Ghost(planes): Ghost<int>,
)
    requires
        plane < planes,
        planes * stride_words <= old(columns)@.len(),
        words_for_bits(old_shots as int) <= stride_words,
        words_for_bits(old_shots as int) <= keep_bits@.len(),
    ensures
        final(columns)@.len() == old(columns)@.len(),
        forall|q: int, i: int|
            0 <= q < planes && q != plane ==> #[trigger] plane_bit(
                final(columns)@,
                stride_words as int,
                q,
                i,
            ) == plane_bit(old(columns)@, stride_words as int, q, i),
        forall|j: int|
            0 <= j < survivors(keep_bits@, old_shots as int).len() ==> #[trigger] plane_bit(
                final(columns)@,
                stride_words as int,
                plane as int,
                j,
            ) == plane_bit(
                old(columns)@,
                stride_words as int,
                plane as int,
                survivors(keep_bits@, old_shots as int)[j],
            ),
        forall|j: int|
            survivors(keep_bits@, old_shots as int).len() <= j < 64 * stride_words
                ==> !#[trigger] plane_bit(final(columns)@, stride_words as int, plane as int, j),
        forall|w: int|
            0 <= w < old(columns)@.len() && !(plane * stride_words <= w < plane * stride_words
                + stride_words) ==> #[trigger] final(columns)@[w] == old(columns)@[w],
{
    let ghost st = stride_words as int;
    let ghost p = plane as int;
    let ghost start = columns@;
    let ghost n = old_shots as int;
    let nwords: usize = crate::bits::bit_word_count(old_shots);
    let len: usize = columns.len();
    let mut row: Vec<u64> = filled_list(stride_words, 0u64);
    let mut dest: usize = 0;
    let mut word: usize = 0;
    let ghost masked = Seq::new(nwords as nat, |w: int| masked_word(keep_bits@, n, w));
    proof {
        lemma_masked_row(keep_bits@, n, nwords as int);
        assert forall|i: int| 0 <= i < 64 * row@.len() implies !#[trigger] row_bit(row@, i) by {
            crate::executor::lemma_clear_row(row@, i);
        }
    }
    while word < nwords
        invariant
            word <= nwords,
            nwords == words_for_bits(n),
            n == old_shots,
            nwords <= stride_words,
            nwords <= keep_bits@.len(),
            st == stride_words,
            p == plane,
            plane < planes,
            planes * st <= start.len(),
            columns@ == start,
            len == start.len(),
            masked == Seq::new(nwords as nat, |w: int| masked_word(keep_bits@, n, w)),
            survivors(masked, 64 * nwords) == survivors(keep_bits@, n),
            row@.len() == stride_words,
            dest == survivors(masked, 64 * word).len(),
            dest <= 64 * word,
            64 * word <= old_shots + 63,
            forall|i: int| dest <= i < 64 * row@.len() ==> !#[trigger] row_bit(row@, i),
            forall|s: int|
                0 <= s < 64 * word && #[trigger] row_bit(masked, s) ==> survivors(masked, s).len() < dest
                    && row_bit(row@, survivors(masked, s).len() as int) == plane_bit(start, st, p, s),
        decreases nwords - word,
    {
        let mask: u64 = live_word_mask_for_shots(old_shots, word);
        let keep: u64 = keep_bits[word] & mask;
        proof {
            lemma_masked_unique(keep_bits@, n, word as int, mask);
            assert(masked[word as int] == keep);
            lemma_plane_index(st, planes, p, word as int);
            lemma_ones_bound(keep, 64);
            lemma_rank_in_word(masked, word as int, 64);
            lemma_survivors_grow(masked, 64 * (word + 1), 64 * nwords as int);
            lemma_survivors(keep_bits@, n);
        }
        let value: u64 = columns[plane_offset(stride_words, plane, word)];
        let kept: u32 = keep.count_ones();
        let packed: u64 = compress_bits(value, keep);
        let ghost before = row@;
        let ghost dest0 = dest as int;
        dest = append_compressed_bits(&mut row, dest, packed, kept as usize);
        proof {
            assert forall|i: int| dest <= i < 64 * row@.len() implies !#[trigger] row_bit(row@, i) by {
                assert(!row_bit(before, i));
            }
            assert forall|s: int|
                0 <= s < 64 * (word + 1) && #[trigger] row_bit(masked, s) implies survivors(
                masked,
                s,
            ).len() < dest && row_bit(row@, survivors(masked, s).len() as int) == plane_bit(
                start,
                st,
                p,
                s,
            ) by {
                if s < 64 * word {
                    let r = survivors(masked, s).len() as int;
                    assert(r < dest0);
                    assert(row_bit(row@, r) == row_bit(before, r));
                } else {
                    let i = s - 64 * word;
                    assert(s / 64 == word && s % 64 == i);
                    lemma_rank_in_word(masked, word as int, i);
                    assert(word_bit(keep, i));
                    let r = survivors(masked, s).len() as int;
                    assert(r == dest0 + ones_below(keep, i));
                    lemma_ones_strict(keep, i, 64);
                    assert(row_bit(row@, r) == word_bit(packed, r - dest0));
                }
            }
        }
        word += 1;
    }
    let ghost built = row@;
    let mut at: usize = 0;
    while at < stride_words
        invariant
            at <= stride_words,
            st == stride_words,
            p == plane,
            plane < planes,
            planes * st <= start.len(),
            columns@.len() == start.len(),
            len == start.len(),
            row@ == built,
            built.len() == st,
            forall|w: int|
                0 <= w < start.len() && !(p * st <= w < p * st + st) ==> #[trigger] columns@[w]
                    == start[w],
            forall|q: int, i: int|
                0 <= q < planes && 0 <= i < 64 * st ==> #[trigger] plane_bit(columns@, st, q, i) == if q
                    == p && i / 64 < at {
                    row_bit(built, i)
                } else {
                    plane_bit(start, st, q, i)
                },
        decreases stride_words - at,
    {
        proof {
            lemma_plane_index(st, planes, p, at as int);
        }
        let ghost before = columns@;
        let value: u64 = row[at];
        columns.set(plane_offset(stride_words, plane, at), value);
        proof {
            assert forall|q: int, i: int| 0 <= q < planes && 0 <= i < 64 * st implies #[trigger] plane_bit(
                columns@,
                st,
                q,
                i,
            ) == if q == p && i / 64 < at + 1 {
                row_bit(built, i)
            } else {
                plane_bit(start, st, q, i)
            } by {
                lemma_plane_update(before, st, planes, p, at as int, value, q, i);
                assert(plane_bit(before, st, q, i) == if q == p && i / 64 < at {
                    row_bit(built, i)
                } else {
                    plane_bit(start, st, q, i)
                });
            }
        }
        at += 1;
    }
    proof {
        let all = survivors(keep_bits@, n);
        assert(all == survivors(masked, 64 * nwords as int));
        lemma_survivors(masked, 64 * nwords as int);
        assert forall|q: int, i: int| 0 <= q < planes && q != plane implies #[trigger] plane_bit(
            columns@,
            st,
            q,
            i,
        ) == plane_bit(start, st, q, i) by {
            if 0 <= i < 64 * st {
                assert(plane_bit(columns@, st, q, i) == if q == p && i / 64 < st {
                    row_bit(built, i)
                } else {
                    plane_bit(start, st, q, i)
                });
            }
        }
        assert forall|j: int| 0 <= j < all.len() implies #[trigger] plane_bit(columns@, st, p, j)
            == plane_bit(start, st, p, all[j]) by {
            let s = all[j];
            assert(0 <= j <= s < 64 * nwords && row_bit(masked, s));
            lemma_rank_of(masked, 64 * nwords as int, j);
            assert(survivors(masked, s).len() == j);
            assert(plane_bit(columns@, st, p, j) == if p == p && j / 64 < st {
                row_bit(built, j)
            } else {
                plane_bit(start, st, p, j)
            });
        }
    }
}

proof fn lemma_ones_strict(w: u64, i: int, n: int)
    requires
        0 <= i < n,
        word_bit(w, i),
    ensures
        ones_below(w, i) < ones_below(w, n),
    decreases n,
{
    if i < n - 1 {
        lemma_ones_strict(w, i, n - 1);
    }
}

/// Moves the entries of the listed shots of every column to the front.
pub fn compact_dense_columns<T: Copy>(
    columns: &mut Vec<T>,
    column_count: usize,
    stride: usize,
    live_sources: &Vec<usize>,
)
    requires
        old(columns)@.len() == column_count * stride,
        live_sources@.len() <= stride,
        forall|j: int| 0 <= j < live_sources@.len() ==> j <= #[trigger] live_sources@[j] < stride,
        forall|i: int, j: int|
            0 <= i < j < live_sources@.len() ==> live_sources@[i] < live_sources@[j],
    ensures
        final(columns)@.len() == old(columns)@.len(),
        forall|c: int, j: int|
            0 <= c < column_count && 0 <= j < live_sources@.len() ==> final(columns)@[
                #[trigger] entry(c, stride as int, j)
            ] == old(columns)@[entry(c, stride as int, live_sources@[j] as int)],
{
    let ghost start = columns@;
    let ghost st = stride as int;
    let ghost list = live_sources@;
    let len: usize = columns.len();
    let mut column: usize = 0;
    while column < column_count
        invariant
            column <= column_count,
            st == stride,
            list == live_sources@,
            start.len() == column_count * st,
            columns@.len() == start.len(),
            len == start.len(),
            list.len() <= stride,
            forall|j: int| 0 <= j < list.len() ==> j <= #[trigger] list[j] < stride,
            forall|i: int, j: int| 0 <= i < j < list.len() ==> list[i] < list[j],
            forall|c: int, s: int|
                column <= c < column_count && 0 <= s < st ==> columns@[#[trigger] entry(c, st, s)]
                    == start[entry(c, st, s)],
            forall|c: int, j: int|
                0 <= c < column && 0 <= j < list.len() ==> columns@[#[trigger] entry(c, st, j)]
                    == start[entry(c, st, list[j] as int)],
        decreases column_count - column,
    {
        let ghost col = column as int;
        let mut j: usize = 0;
        while j < live_sources.len()
            invariant
                j <= list.len(),
                col == column,
                column < column_count,
                st == stride,
                list == live_sources@,
                start.len() == column_count * st,
                columns@.len() == start.len(),
                len == start.len(),
                list.len() <= stride,
                forall|j: int| 0 <= j < list.len() ==> j <= #[trigger] list[j] < stride,
                forall|i: int, j: int| 0 <= i < j < list.len() ==> list[i] < list[j],
                forall|c: int, s: int|
                    column < c < column_count && 0 <= s < st ==> columns@[#[trigger] entry(c, st, s)]
                        == start[entry(c, st, s)],
                forall|s: int|
                    j <= s < st ==> columns@[#[trigger] entry(col, st, s)] == start[entry(
                        col,
                        st,
                        s,
                    )],
                forall|c: int, i: int|
                    0 <= c < column && 0 <= i < list.len() ==> columns@[#[trigger] entry(c, st, i)]
                        == start[entry(c, st, list[i] as int)],
                forall|i: int|
                    0 <= i < j ==> columns@[#[trigger] entry(col, st, i)] == start[entry(
                        col,
                        st,
                        list[i] as int,
                    )],
            decreases list.len() - j,
        {
            let src: usize = live_sources[j];
            proof {
                assert(j <= list[j as int] < stride);
                lemma_plane_index(st, column_count as int, col, j as int);
                lemma_plane_index(st, column_count as int, col, src as int);
            }
            let from: usize = plane_offset(stride, column, src);
            let to: usize = plane_offset(stride, column, j);
            let value: T = columns[from];
            let ghost before = columns@;
            columns.set(to, value);
            proof {
                assert(to == entry(col, st, j as int));
                assert(from == entry(col, st, src as int));
                assert forall|c: int, s: int| 0 <= c < column_count && 0 <= s < st && (c != col || s
                    != j) implies columns@[#[trigger] entry(c, st, s)] == before[entry(c, st, s)] by {
                    lemma_plane_index(st, column_count as int, c, s);
                    if entry(c, st, s) == to {
                        lemma_plane_unique(st, c, s, col, j as int);
                    }
                }
            }
            j += 1;
        }
        column += 1;
    }
}

/// The place of a shot in a column.
pub open spec fn entry(column: int, stride: int, shot: int) -> int {
    column * stride + shot
}

} // verus!
