//! Destabilizer-coset labels and the word masks the frame math runs against.
//!
//! A label `c` in `{0,1}^n` indexes a term `D^c|ψ0⟩` of the stabilizer frame.
//! Equivalently it is a computational-basis index of the rotated state
//! `|χ⟩ = R†|ψ⟩`. Labels are packed `u64` word vectors.
//!
//! [`Key<W>`] is `W` words of inline storage; a register of `ceil(n / 64)` words
//! is rounded up to the next supported `W` of `{1, 2, 4, 8}` and the padding
//! words are held at zero. Padding is transparent because every operation here
//! is bitwise or a parity, for which a zero word is the identity
//! ([`law_padding_is_transparent`]). Registers past 512 qubits fall back to
//! [`Label`], the runtime-width label.
use vstd::prelude::*;
use vstd::std_specs::bits::{axiom_u64_trailing_zeros, u64_trailing_zeros};
use crate::bits::{
    lemma_row_bit_update, lemma_word_zero, lemma_xor_below_ext, lemma_xor_below_tail, packed_bit,
    row_bit, word_bit, xor_below,
};
use crate::pauli::{dot_parity, words_dot};

verus! {

broadcast use crate::bits::group_word_bits;

/// Which [`LabelKey`] implementation a register width selects.
#[derive(Clone, Copy, PartialEq, Eq, Debug, Structural)]
pub enum Width {
    W1,
    W2,
    W4,
    W8,
    /// Runtime width: registers past 512 qubits.
    Wide,
}

impl Width {
    /// The class holding a register of `words` words.
    pub fn for_words(words: usize) -> (r: Self)
        ensures
            r == if words <= 1 {
                Width::W1
            } else if words <= 2 {
                Width::W2
            } else if words <= 4 {
                Width::W4
            } else if words <= 8 {
                Width::W8
            } else {
                Width::Wide
            },
    {
        if words <= 1 {
            Width::W1
        } else if words <= 2 {
            Width::W2
        } else if words <= 4 {
            Width::W4
        } else if words <= 8 {
            Width::W8
        } else {
            Width::Wide
        }
    }
}

/// The rows hold the same bits, whatever their widths.
pub open spec fn same_bits(a: Seq<u64>, b: Seq<u64>) -> bool {
    forall|i: int| #[trigger] row_bit(a, i) == row_bit(b, i)
}

/// No bit is set.
pub open spec fn clear_row(words: Seq<u64>) -> bool {
    forall|i: int| !#[trigger] row_bit(words, i)
}

/// Whether `i` occurs an odd number of times in the list.
pub open spec fn listed_oddly(list: Seq<usize>, i: int) -> bool {
    xor_below(|k: int| list[k] == i, list.len() as int)
}

/// The label operations the amplitude engine runs on, over any width.
///
/// Implementors carry at least the register's words; the surplus is always
/// zero, so index-free operations may run over the whole storage without
/// checking where the register ends.
pub trait LabelKey: Sized {
    /// The backing words.
    spec fn words(&self) -> Seq<u64>;

    /// Whether a register of `words` words fits the label type.
    spec fn fits(words: int) -> bool;

    /// The storage width for a register of `words` words.
    spec fn storage(words: int) -> int;

    /// The all-zero label on `words` words.
    fn zeros(words: usize) -> (r: Self)
        requires
            Self::fits(words as int),
        ensures
            r.words().len() == Self::storage(words as int),
            r.words().len() >= words,
            forall|i: int| !#[trigger] row_bit(r.words(), i),
    ;

    /// A label of width `words` carrying `src`'s bits. `src` may be narrower;
    /// the rest reads as zero.
    fn from_words(src: &[u64], words: usize) -> (r: Self)
        requires
            Self::fits(words as int),
            src@.len() <= words,
        ensures
            r.words().len() == Self::storage(words as int),
            same_bits(r.words(), src@),
    ;

    /// The backing words.
    fn as_slice(&self) -> (r: &[u64])
        ensures
            r@ == self.words(),
    ;

    /// `self ⊕ mask` word-wise (the coset shift `c ⊕ a`).
    fn xor(&self, mask: &Self) -> (r: Self)
        requires
            self.words().len() == mask.words().len(),
        ensures
            r.words().len() == self.words().len(),
            forall|i: int|
                #[trigger] row_bit(r.words(), i) == (row_bit(self.words(), i) != row_bit(
                    mask.words(),
                    i,
                )),
    ;

    /// Parity `⟨self, mask⟩`, used for the `(-1)^⟨b,c⟩` phases.
    fn dot_parity(&self, mask: &Self) -> (r: bool)
        requires
            self.words().len() == mask.words().len(),
        ensures
            r == words_dot(self.words(), mask.words()),
    ;

    /// Test bit `index`.
    fn get(&self, index: usize) -> (r: bool)
        requires
            index < 64 * self.words().len(),
        ensures
            r == row_bit(self.words(), index as int),
    ;

    /// Toggle bit `index`.
    fn flip(&mut self, index: usize)
        requires
            index < 64 * old(self).words().len(),
        ensures
            final(self).words().len() == old(self).words().len(),
            forall|i: int|
                #[trigger] row_bit(final(self).words(), i) == (row_bit(old(self).words(), i) != (i
                    == index)),
    ;

    /// Index of the lowest set bit, or `None` if all zero (measurement pivot).
    fn first_set_bit(&self) -> (r: Option<usize>)
        requires
            64 * self.words().len() <= usize::MAX,
        ensures
            match r {
                Some(p) => row_bit(self.words(), p as int) && forall|i: int|
                    i < p ==> !#[trigger] row_bit(self.words(), i),
                None => forall|i: int| !#[trigger] row_bit(self.words(), i),
            },
    ;

    /// Whether every bit is zero (a frame-diagonal decomposition, `a = 0`).
    fn is_zero(&self) -> (r: bool)
        ensures
            r <==> clear_row(self.words()),
    ;

    /// A mask with the listed bits toggled.
    fn mask_from_support(words: usize, support: &[usize]) -> (r: Self)
        requires
            Self::fits(words as int),
            forall|k: int| 0 <= k < support@.len() ==> #[trigger] support@[k] < 64 * words,
        ensures
            r.words().len() == Self::storage(words as int),
            forall|i: int| #[trigger] row_bit(r.words(), i) == (0 <= i < 64 * r.words().len() && listed_oddly(support@, i)),
    {
        let mut mask = Self::zeros(words);
        let mut k: usize = 0;
        while k < support.len()
            invariant
                k <= support@.len(),
                mask.words().len() == Self::storage(words as int),
                mask.words().len() >= words,
                forall|j: int| 0 <= j < support@.len() ==> #[trigger] support@[j] < 64 * words,
                forall|i: int|
                    #[trigger] row_bit(mask.words(), i) == (0 <= i < 64 * mask.words().len()
                        && xor_below(|j: int| support@[j] == i, k as int)),
            decreases support@.len() - k,
        {
            mask.flip(support[k]);
            k += 1;
        }
        mask
    }
}

// ---------------------------------------------------------------------------
// Word-slice kernels shared by the two label types
// ---------------------------------------------------------------------------
/// The lowest set bit of a row of words.
pub fn first_set_bit(words: &[u64]) -> (r: Option<usize>)
    requires
        64 * words@.len() <= usize::MAX,
    ensures
        match r {
            Some(p) => row_bit(words@, p as int) && forall|i: int|
                i < p ==> !#[trigger] row_bit(words@, i),
            None => forall|i: int| !#[trigger] row_bit(words@, i),
        },
{
    let mut k: usize = 0;
    while k < words.len()
        invariant
            k <= words@.len(),
            64 * words@.len() <= usize::MAX,
            forall|i: int| i < 64 * k ==> !#[trigger] row_bit(words@, i),
        decreases words@.len() - k,
    {
        let word: u64 = words[k];
        if word != 0 {
            let bit: u32 = word.trailing_zeros();
            proof {
                axiom_u64_trailing_zeros(word);
            }
            let position: usize = 64 * k + bit as usize;
            proof {
                assert(position as int / 64 == k && position as int % 64 == bit);
                assert(word_bit(word, bit as int));
                assert forall|i: int| i < position implies !#[trigger] row_bit(words@, i) by {
                    if i >= 64 * k {
                        assert(i / 64 == k && i % 64 == i - 64 * k);
                        assert((word >> ((i % 64) as u64)) & 1u64 == 0u64);
                    }
                }
            }
            return Some(position);
        }
        proof {
            assert forall|i: int| i < 64 * (k + 1) implies !#[trigger] row_bit(words@, i) by {
                if i >= 64 * k {
                    assert(i / 64 == k);
                    assert(!word_bit(0u64, i % 64));
                }
            }
        }
        k += 1;
    }
    None
}

/// Whether every word is zero.
pub fn all_zero(words: &[u64]) -> (r: bool)
    ensures
        r <==> clear_row(words@),
{
    let mut k: usize = 0;
    while k < words.len()
        invariant
            k <= words@.len(),
            forall|j: int| 0 <= j < k ==> words@[j] == 0,
        decreases words@.len() - k,
    {
        if words[k] != 0 {
            proof {
                let w = words@[k as int];
                if clear_row(words@) {
                    assert forall|i: int| 0 <= i < 64 implies !#[trigger] word_bit(w, i) by {
                        let b = 64 * k + i;
                        assert(b / 64 == k && b % 64 == i);
                        assert(!row_bit(words@, b));
                    }
                    lemma_word_zero(w);
                }
            }
            return false;
        }
        k += 1;
    }
    proof {
        assert forall|i: int| !#[trigger] row_bit(words@, i) by {
            if 0 <= i < 64 * words@.len() {
                assert(words@[i / 64] == 0);
                assert(!word_bit(0u64, i % 64));
            }
        }
    }
    true
}

// ---------------------------------------------------------------------------
// Fixed-width keys
// ---------------------------------------------------------------------------
/// A label of exactly `W` machine words, held inline and copied by value.
#[derive(Clone, Copy, PartialEq, Eq, Debug, Hash)]
pub struct Key<const W: usize>(pub [u64; W]);

impl<const W: usize> LabelKey for Key<W> {
    open spec fn words(&self) -> Seq<u64> {
        self.0@
    }

    open spec fn fits(words: int) -> bool {
        words <= W
    }

    open spec fn storage(words: int) -> int {
        W as int
    }

    fn zeros(words: usize) -> (r: Self) {
        let out: [u64; W] = [0u64; W];
        proof {
            vstd::array::axiom_spec_array_fill_for_copy_type::<u64, W>(0u64);
        }
        assert forall|i: int| !#[trigger] row_bit(out@, i) by {
            if 0 <= i < 64 * W {
                assert(out@[i / 64] == 0);
            }
        }
        Key(out)
    }

    fn from_words(src: &[u64], words: usize) -> (r: Self) {
        let mut out: [u64; W] = [0u64; W];
        let mut k: usize = 0;
        while k < src.len()
            invariant
                k <= src@.len(),
                src@.len() <= W,
                forall|j: int| 0 <= j < k ==> #[trigger] out@[j] == src@[j],
                forall|j: int| k <= j < W ==> #[trigger] out@[j] == 0,
            decreases src@.len() - k,
        {
            out[k] = src[k];
            k += 1;
        }
        let r = Key(out);
        assert forall|i: int| #[trigger] row_bit(r.words(), i) == row_bit(src@, i) by {
            if 0 <= i < 64 * W {
                if i / 64 < src@.len() {
                    assert(r.words()[i / 64] == src@[i / 64]);
                } else {
                    assert(r.words()[i / 64] == 0);
                }
            }
        }
        r
    }

    fn as_slice(&self) -> (r: &[u64]) {
        vstd::array::array_as_slice(&self.0)
    }

    fn xor(&self, mask: &Self) -> (r: Self) {
        let mut out: [u64; W] = [0u64; W];
        let mut k: usize = 0;
        while k < W
            invariant
                k <= W,
                forall|j: int| 0 <= j < k ==> #[trigger] out@[j] == self.0@[j] ^ mask.0@[j],
            decreases W - k,
        {
            out[k] = self.0[k] ^ mask.0[k];
            k += 1;
        }
        let r = Key(out);
        assert forall|i: int|
            #[trigger] row_bit(r.words(), i) == (row_bit(self.words(), i) != row_bit(
                mask.words(),
                i,
            )) by {
            if 0 <= i < 64 * W {
                assert(r.words()[i / 64] == self.0@[i / 64] ^ mask.0@[i / 64]);
            }
        }
        r
    }

    fn dot_parity(&self, mask: &Self) -> (r: bool) {
        dot_parity(self.as_slice(), mask.as_slice())
    }

    fn get(&self, index: usize) -> (r: bool) {
        packed_bit(self.as_slice(), index)
    }

    fn flip(&mut self, index: usize) {
        let offset: u64 = (index % 64) as u64;
        let word: u64 = self.0[index / 64] ^ (1u64 << offset);
        self.0[index / 64] = word;
        assert forall|i: int|
            #[trigger] row_bit(self.words(), i) == (row_bit(old(self).words(), i) != (i == index)) by {
            if 0 <= i < 64 * W {
                assert(self.words() =~= old(self).words().update(index as int / 64, word));
                lemma_row_bit_update(old(self).words(), index as int / 64, word, i);
                assert(word_bit(1u64 << offset, i % 64) == (i % 64 == offset));
            }
        }
    }

    fn first_set_bit(&self) -> (r: Option<usize>) {
        first_set_bit(self.as_slice())
    }

    fn is_zero(&self) -> (r: bool) {
        all_zero(self.as_slice())
    }
}

// ---------------------------------------------------------------------------
// Runtime-width labels
// ---------------------------------------------------------------------------
/// A label of runtime width.
#[derive(Clone, PartialEq, Eq, Debug, Hash)]
pub struct Label(pub Vec<u64>);

impl LabelKey for Label {
    open spec fn words(&self) -> Seq<u64> {
        self.0@
    }

    open spec fn fits(words: int) -> bool {
        true
    }

    open spec fn storage(words: int) -> int {
        words
    }

    fn zeros(words: usize) -> (r: Self) {
        let mut out: Vec<u64> = Vec::new();
        out.resize(words, 0u64);
        assert forall|i: int| !#[trigger] row_bit(out@, i) by {
            if 0 <= i < 64 * words {
                assert(out@[i / 64] == 0);
            }
        }
        Label(out)
    }

    fn from_words(src: &[u64], words: usize) -> (r: Self) {
        let mut out: Vec<u64> = Vec::new();
        out.extend_from_slice(src);
        assert(out@ =~= src@);
        out.resize(words, 0u64);
        let r = Label(out);
        assert forall|i: int| #[trigger] row_bit(r.words(), i) == row_bit(src@, i) by {
            if 0 <= i < 64 * words {
                if i / 64 < src@.len() {
                    assert(out@[i / 64] == src@[i / 64]);
                } else {
                    assert(out@[i / 64] == 0);
                }
            }
        }
        r
    }

    fn as_slice(&self) -> (r: &[u64]) {
        self.0.as_slice()
    }

    fn xor(&self, mask: &Self) -> (r: Self) {
        let mut out: Vec<u64> = self.0.clone();
        assert(out@ =~= self.0@);
        crate::pauli::xor_assign(&mut out, mask.0.as_slice());
        let r = Label(out);
        assert forall|i: int|
            #[trigger] row_bit(r.words(), i) == (row_bit(self.words(), i) != row_bit(
                mask.words(),
                i,
            )) by {}
        r
    }

    fn dot_parity(&self, mask: &Self) -> (r: bool) {
        dot_parity(self.0.as_slice(), mask.0.as_slice())
    }

    fn get(&self, index: usize) -> (r: bool) {
        packed_bit(self.0.as_slice(), index)
    }

    fn flip(&mut self, index: usize) {
        let offset: u64 = (index % 64) as u64;
        let word: u64 = self.0[index / 64] ^ (1u64 << offset);
        self.0.set(index / 64, word);
        assert forall|i: int|
            #[trigger] row_bit(self.words(), i) == (row_bit(old(self).words(), i) != (i == index)) by {
            if 0 <= i < 64 * self.words().len() {
                lemma_row_bit_update(old(self).words(), index as int / 64, word, i);
                assert(word_bit(1u64 << offset, i % 64) == (i % 64 == offset));
            }
        }
    }

    fn first_set_bit(&self) -> (r: Option<usize>) {
        first_set_bit(self.0.as_slice())
    }

    fn is_zero(&self) -> (r: bool) {
        all_zero(self.0.as_slice())
    }
}

/// Padding words never change an answer: rows that hold the same bits in
/// different widths have the same overlaps.
pub proof fn law_padding_is_transparent(a: Seq<u64>, b: Seq<u64>, c: Seq<u64>, d: Seq<u64>)
    requires
        a.len() == b.len(),
        c.len() == d.len(),
        same_bits(a, c),
        same_bits(b, d),
    ensures
        words_dot(a, b) == words_dot(c, d),
        clear_row(a) <==> clear_row(c),
{
    let f = |i: int| row_bit(a, i) && row_bit(b, i);
    let g = |i: int| row_bit(c, i) && row_bit(d, i);
    let m = if a.len() <= c.len() {
        64 * a.len() as int
    } else {
        64 * c.len() as int
    };
    assert forall|i: int| #[trigger] row_bit(c, i) == row_bit(a, i) by {
        assert(row_bit(a, i) == row_bit(c, i));
    }
    lemma_xor_below_tail(f, m, 64 * a.len() as int);
    lemma_xor_below_tail(g, m, 64 * c.len() as int);
    lemma_xor_below_ext(f, g, m);
}

} // verus!
