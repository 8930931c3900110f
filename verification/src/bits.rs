//! Packed bit rows.
//!
//! A row of bits is stored 64 to a word, bit `i` in word `i / 64` at position
//! `i % 64`. The specifications below read a word or a row as the bits it
//! holds, and the lemmas carry the word operations over to those bits.
use vstd::prelude::*;
use vstd::std_specs::bits::{axiom_u64_trailing_zeros, u64_trailing_zeros};

verus! {

/// The number of bits in a word.
pub const WORD_BITS: usize = 64;

// ---------------------------------------------------------------------------
// One word
// ---------------------------------------------------------------------------
/// Bit `i` of the word `w`, for `0 <= i < 64`.
pub open spec fn word_bit(w: u64, i: int) -> bool {
    (w >> (i as u64)) & 1u64 == 1u64
}

proof fn lemma_word_bits_raw(a: u64, b: u64, j: u64)
    by (bit_vector)
    requires
        j < 64,
    ensures
        (((a ^ b) >> j) & 1u64 == 1u64) == (((a >> j) & 1u64 == 1u64) != ((b >> j) & 1u64 == 1u64)),
        (((a & b) >> j) & 1u64 == 1u64) == (((a >> j) & 1u64 == 1u64) && ((b >> j) & 1u64 == 1u64)),
        (((a | b) >> j) & 1u64 == 1u64) == (((a >> j) & 1u64 == 1u64) || ((b >> j) & 1u64 == 1u64)),
        (((!a) >> j) & 1u64 == 1u64) == !((a >> j) & 1u64 == 1u64),
{
}

proof fn lemma_word_consts_raw(j: u64, k: u64)
    by (bit_vector)
    requires
        j < 64,
        k < 64,
    ensures
        (((1u64 << k) >> j) & 1u64 == 1u64) == (j == k),
        !((0u64 >> j) & 1u64 == 1u64),
        (0xffff_ffff_ffff_ffffu64 >> j) & 1u64 == 1u64,
        (((((1u64 << k) - 1) as u64) >> j) & 1u64 == 1u64) == (j < k),
        (1u64 << k) >= 1,
{
}

pub broadcast proof fn lemma_word_bit_xor(a: u64, b: u64, i: int)
    requires
        0 <= i < 64,
    ensures
        #[trigger] word_bit(a ^ b, i) == (word_bit(a, i) != word_bit(b, i)),
{
    lemma_word_bits_raw(a, b, i as u64);
}

pub broadcast proof fn lemma_word_bit_and(a: u64, b: u64, i: int)
    requires
        0 <= i < 64,
    ensures
        #[trigger] word_bit(a & b, i) == (word_bit(a, i) && word_bit(b, i)),
{
    lemma_word_bits_raw(a, b, i as u64);
}

pub broadcast proof fn lemma_word_bit_or(a: u64, b: u64, i: int)
    requires
        0 <= i < 64,
    ensures
        #[trigger] word_bit(a | b, i) == (word_bit(a, i) || word_bit(b, i)),
{
    lemma_word_bits_raw(a, b, i as u64);
}

pub broadcast proof fn lemma_word_bit_not(a: u64, i: int)
    requires
        0 <= i < 64,
    ensures
        #[trigger] word_bit(!a, i) == !word_bit(a, i),
{
    lemma_word_bits_raw(a, a, i as u64);
}

pub broadcast proof fn lemma_word_bit_single(k: u64, i: int)
    requires
        0 <= i < 64,
        k < 64,
    ensures
        #[trigger] word_bit(1u64 << k, i) == (i == k),
{
    lemma_word_consts_raw(i as u64, k);
}

pub broadcast proof fn lemma_word_bit_zero(i: int)
    requires
        0 <= i < 64,
    ensures
        !#[trigger] word_bit(0u64, i),
{
    lemma_word_consts_raw(i as u64, 0);
}

pub broadcast proof fn lemma_word_bit_ones(i: int)
    requires
        0 <= i < 64,
    ensures
        #[trigger] word_bit(0xffff_ffff_ffff_ffffu64, i),
{
    lemma_word_consts_raw(i as u64, 0);
}

pub broadcast group group_word_bits {
    lemma_word_bit_xor,
    lemma_word_bit_and,
    lemma_word_bit_or,
    lemma_word_bit_not,
    lemma_word_bit_single,
    lemma_word_bit_zero,
    lemma_word_bit_ones,
}

/// A word whose bits are all clear is zero.
pub proof fn lemma_word_zero(w: u64)
    requires
        forall|i: int| 0 <= i < 64 ==> !#[trigger] word_bit(w, i),
    ensures
        w == 0,
{
    axiom_u64_trailing_zeros(w);
    if w != 0 {
        let t = u64_trailing_zeros(w) as int;
        assert(word_bit(w, t));
    }
}

/// A word is determined by its bits.
pub proof fn lemma_word_ext(a: u64, b: u64)
    requires
        forall|i: int| 0 <= i < 64 ==> #[trigger] word_bit(a, i) == word_bit(b, i),
    ensures
        a == b,
{
    broadcast use group_word_bits;

    assert forall|i: int| 0 <= i < 64 implies !#[trigger] word_bit(a ^ b, i) by {
        assert(word_bit(a, i) == word_bit(b, i));
    }
    lemma_word_zero(a ^ b);
    assert(a ^ b == 0 ==> a == b) by (bit_vector);
}

// ---------------------------------------------------------------------------
// Counting
// ---------------------------------------------------------------------------
/// The number of set bits among the lowest `n` of `w`.
pub open spec fn ones_below(w: u64, n: int) -> nat
    decreases n,
{
    if n <= 0 {
        0
    } else {
        ones_below(w, n - 1) + if word_bit(w, n - 1) {
            1nat
        } else {
            0nat
        }
    }
}

/// `u64::count_ones` returns the number of ones in the binary representation.
pub assume_specification[ u64::count_ones ](w: u64) -> (r: u32)
    ensures
        r == ones_below(w, 64),
;

pub proof fn lemma_ones_bound(w: u64, n: int)
    requires
        0 <= n,
    ensures
        ones_below(w, n) <= n,
    decreases n,
{
    if n > 0 {
        lemma_ones_bound(w, n - 1);
    }
}

/// The exclusive or of `f(i)` over `0 <= i < n`.
pub open spec fn xor_below(f: spec_fn(int) -> bool, n: int) -> bool
    decreases n,
{
    if n <= 0 {
        false
    } else {
        xor_below(f, n - 1) != f(n - 1)
    }
}

pub proof fn lemma_xor_below_ext(f: spec_fn(int) -> bool, g: spec_fn(int) -> bool, n: int)
    requires
        forall|i: int| 0 <= i < n ==> #[trigger] f(i) == g(i),
    ensures
        xor_below(f, n) == xor_below(g, n),
    decreases n,
{
    if n > 0 {
        assert(f(n - 1) == g(n - 1));
        lemma_xor_below_ext(f, g, n - 1);
    }
}

/// The exclusive or of a pointwise exclusive or.
pub proof fn lemma_xor_below_xor(
    f: spec_fn(int) -> bool,
    g: spec_fn(int) -> bool,
    h: spec_fn(int) -> bool,
    n: int,
)
    requires
        forall|i: int| 0 <= i < n ==> #[trigger] h(i) == (f(i) != g(i)),
    ensures
        xor_below(h, n) == (xor_below(f, n) != xor_below(g, n)),
    decreases n,
{
    if n > 0 {
        assert(h(n - 1) == (f(n - 1) != g(n - 1)));
        lemma_xor_below_xor(f, g, h, n - 1);
    }
}

/// Terms that are all false add nothing.
pub proof fn lemma_xor_below_tail(f: spec_fn(int) -> bool, m: int, n: int)
    requires
        0 <= m <= n,
        forall|i: int| m <= i < n ==> !#[trigger] f(i),
    ensures
        xor_below(f, n) == xor_below(f, m),
    decreases n - m,
{
    if m < n {
        assert(!f(n - 1));
        lemma_xor_below_tail(f, m, n - 1);
    }
}

/// A range splits at any point.
pub proof fn lemma_xor_below_split(
    f: spec_fn(int) -> bool,
    g: spec_fn(int) -> bool,
    m: int,
    n: int,
)
    requires
        0 <= m,
        0 <= n,
        forall|i: int| 0 <= i < n ==> #[trigger] g(i) == f(m + i),
    ensures
        xor_below(f, m + n) == (xor_below(f, m) != xor_below(g, n)),
    decreases n,
{
    if n > 0 {
        lemma_xor_below_split(f, g, m, n - 1);
        assert(g(n - 1) == f(m + (n - 1)));
    }
}

/// Whether the word has an odd number of set bits.
pub open spec fn word_parity(w: u64) -> bool {
    xor_below(|i: int| word_bit(w, i), 64)
}

pub proof fn lemma_ones_parity(w: u64, n: int)
    requires
        0 <= n,
    ensures
        (ones_below(w, n) % 2 == 1) == xor_below(|i: int| word_bit(w, i), n),
    decreases n,
{
    if n > 0 {
        lemma_ones_parity(w, n - 1);
    }
}

/// Parity of the number of set bits.
#[inline]
pub fn parity(word: u64) -> (r: bool)
    ensures
        r == word_parity(word),
{
    let ones: u32 = word.count_ones();
    proof {
        lemma_ones_parity(word, 64);
        assert(ones & 1 == ones % 2) by (bit_vector);
    }
    ones & 1 == 1
}

pub proof fn lemma_word_parity_xor(a: u64, b: u64)
    ensures
        word_parity(a ^ b) == (word_parity(a) != word_parity(b)),
{
    broadcast use group_word_bits;

    lemma_xor_below_xor(
        |i: int| word_bit(a, i),
        |i: int| word_bit(b, i),
        |i: int| word_bit(a ^ b, i),
        64,
    );
}

pub proof fn lemma_word_parity_zero()
    ensures
        !word_parity(0),
{
    broadcast use group_word_bits;

    lemma_xor_below_tail(|i: int| word_bit(0u64, i), 0, 64);
}

proof fn lemma_xor_below_single(f: spec_fn(int) -> bool, k: int, n: int)
    requires
        0 <= k < n,
        forall|i: int| 0 <= i < n && i != k ==> !#[trigger] f(i),
    ensures
        xor_below(f, n) == f(k),
    decreases n,
{
    if n - 1 == k {
        lemma_xor_below_tail(f, 0, k);
    } else {
        lemma_xor_below_single(f, k, n - 1);
        assert(!f(n - 1));
    }
}

/// Joining bit `k` to a mask that lacks it flips the masked parity exactly when
/// the word has that bit.
pub proof fn lemma_parity_join(w: u64, mask: u64, k: u64)
    requires
        k < 64,
        !word_bit(mask, k as int),
    ensures
        word_parity(w & (mask | (1u64 << k))) == (word_parity(w & mask) != word_bit(w, k as int)),
{
    broadcast use group_word_bits;

    let single = |i: int| word_bit(w, i) && i == k;
    lemma_xor_below_single(single, k as int, 64);
    lemma_xor_below_xor(
        |i: int| word_bit(w & mask, i),
        single,
        |i: int| word_bit(w & (mask | (1u64 << k)), i),
        64,
    );
}

// ---------------------------------------------------------------------------
// Rows of words
// ---------------------------------------------------------------------------
/// Bit `i` of a packed row; clear outside the row.
pub open spec fn row_bit(words: Seq<u64>, i: int) -> bool {
    0 <= i < 64 * words.len() && word_bit(words[i / 64], i % 64)
}

/// The first `n` bits of a packed row.
pub open spec fn row_bits(words: Seq<u64>, n: int) -> Seq<bool> {
    Seq::new(n as nat, |i: int| row_bit(words, i))
}

/// The words that `n` bits need.
pub open spec fn words_for_bits(n: int) -> int {
    (n + 63) / 64
}

/// The number of words that hold `bits` bits.
pub fn bit_word_count(bits: usize) -> (r: usize)
    ensures
        r == words_for_bits(bits as int),
{
    bits / 64 + if bits % 64 != 0 {
        1
    } else {
        0
    }
}

/// Reads bit `index` of a packed row.
pub fn packed_bit(words: &[u64], index: usize) -> (r: bool)
    requires
        index < 64 * words@.len(),
    ensures
        r == row_bit(words@, index as int),
{
    let offset: u64 = (index % 64) as u64;
    (words[index / 64] >> offset) & 1 == 1
}

/// The word at `i / 64` with bit `i % 64` set.
pub proof fn lemma_row_bit_update(words: Seq<u64>, k: int, w: u64, i: int)
    requires
        0 <= k < words.len(),
        0 <= i < 64 * words.len(),
    ensures
        row_bit(words.update(k, w), i) == if i / 64 == k {
            word_bit(w, i % 64)
        } else {
            row_bit(words, i)
        },
{
}

/// Packs booleans into words.
pub fn packed_bits(values: &[bool]) -> (r: Vec<u64>)
    ensures
        r@.len() == words_for_bits(values@.len() as int),
        forall|i: int| 0 <= i < 64 * r@.len() ==> #[trigger] row_bit(r@, i) == (i < values@.len() && values@[i]),
{
    broadcast use group_word_bits;

    let mut words: Vec<u64> = Vec::new();
    words.resize(bit_word_count(values.len()), 0u64);
    let mut i: usize = 0;
    while i < values.len()
        invariant
            i <= values@.len(),
            words@.len() == words_for_bits(values@.len() as int),
            forall|j: int| 0 <= j < 64 * words@.len() ==> #[trigger] row_bit(words@, j) == (j < i && values@[j]),
        decreases values@.len() - i,
    {
        if values[i] {
            let offset: u64 = (i % 64) as u64;
            let ghost before = words@;
            let word: u64 = words[i / 64] | (1u64 << offset);
            words.set(i / 64, word);
            proof {
                broadcast use group_word_bits;

                assert forall|j: int| 0 <= j < 64 * words@.len() implies #[trigger] row_bit(words@, j) == (j < i + 1
                    && values@[j]) by {
                    lemma_row_bit_update(before, i as int / 64, word, j);
                    assert(row_bit(before, j) == (j < i && values@[j]));
                }
            }
        }
        i += 1;
    }
    words
}

// ---------------------------------------------------------------------------
// Symbols
// ---------------------------------------------------------------------------
/// The bit that symbol `condition` owns in a packed symbol row: symbols count
/// from one.
pub open spec fn symbol_bit(condition: int) -> int {
    condition - 1
}

/// The words that `nsymbols` symbols need.
pub fn symbol_word_count(nsymbols: usize) -> (r: usize)
    ensures
        r == words_for_bits(nsymbols as int),
{
    bit_word_count(nsymbols)
}

/// The word that holds symbol `condition`.
pub fn symbol_word_index(condition: i32) -> (r: usize)
    requires
        condition > 0,
    ensures
        r == symbol_bit(condition as int) / 64,
{
    ((condition - 1) as usize) / 64
}

/// The position of symbol `condition` within its word.
pub fn symbol_bit_offset(condition: i32) -> (r: u64)
    requires
        condition > 0,
    ensures
        r == symbol_bit(condition as int) % 64,
{
    ((condition - 1) as u64) % 64
}

/// The mask that selects symbol `condition` within its word.
pub fn symbol_bit_mask(condition: i32) -> (r: u64)
    requires
        condition > 0,
    ensures
        r == 1u64 << ((symbol_bit(condition as int) % 64) as u64),
{
    1u64 << symbol_bit_offset(condition)
}

// ---------------------------------------------------------------------------
// Masks
// ---------------------------------------------------------------------------
/// The word with exactly its lowest `bits` bits set.
pub open spec fn is_low_mask(mask: u64, bits: int) -> bool {
    forall|i: int| 0 <= i < 64 ==> #[trigger] word_bit(mask, i) == (i < bits)
}

/// Keeps the lowest `bits` bits of a word.
pub fn low_bits_mask(bits: usize) -> (r: u64)
    ensures
        is_low_mask(r, bits as int),
{
    broadcast use group_word_bits;

    if bits >= 64 {
        0xffff_ffff_ffff_ffffu64
    } else {
        let k: u64 = bits as u64;
        proof {
            lemma_word_consts_raw(0, k);
            assert forall|i: int| 0 <= i < 64 implies #[trigger] word_bit(((1u64 << k) - 1) as u64, i) == (i < bits) by {
                lemma_word_consts_raw(i as u64, k);
            }
        }
        (1u64 << k) - 1
    }
}

} // verus!
