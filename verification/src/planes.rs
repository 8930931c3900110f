//! Bit-planes: rows of `stride` words laid out one after another, 64 shots to a
//! word.
use vstd::prelude::*;
use crate::bits::word_bit;

verus! {

broadcast use crate::bits::group_word_bits;

/// Bit `i` of plane `plane`; bits past the stride are clear.
pub open spec fn plane_bit(words: Seq<u64>, stride: int, plane: int, i: int) -> bool {
    0 <= i < 64 * stride && word_bit(words[plane * stride + i / 64], i % 64)
}

pub proof fn lemma_plane_index(stride: int, planes: int, plane: int, word: int)
    by (nonlinear_arith)
    requires
        0 <= plane < planes,
        0 <= word < stride,
    ensures
        0 <= plane * stride,
        plane * stride + word < planes * stride,
        plane * stride + stride <= planes * stride,
{
}

pub proof fn lemma_plane_unique(stride: int, p: int, v: int, q: int, w: int)
    by (nonlinear_arith)
    requires
        0 <= v < stride,
        0 <= w < stride,
        p * stride + v == q * stride + w,
    ensures
        p == q,
        v == w,
{
}

/// Writing one word changes the bits of that word alone.
pub proof fn lemma_plane_update(
    words: Seq<u64>,
    stride: int,
    planes: int,
    plane: int,
    word: int,
    value: u64,
    q: int,
    i: int,
)
    requires
        0 <= plane < planes,
        0 <= q < planes,
        0 <= word < stride,
        planes * stride <= words.len(),
    ensures
        plane_bit(words.update(plane * stride + word, value), stride, q, i) == if q == plane && 0 <= i
            < 64 * stride && i / 64 == word {
            word_bit(value, i % 64)
        } else {
            plane_bit(words, stride, q, i)
        },
{
    if 0 <= i < 64 * stride {
        lemma_plane_index(stride, planes, plane, word);
        lemma_plane_index(stride, planes, q, i / 64);
        if q * stride + i / 64 == plane * stride + word {
            lemma_plane_unique(stride, q, i / 64, plane, word);
        }
    }
}

/// The index of a word of a plane.
pub fn plane_offset(stride: usize, plane: usize, word: usize) -> (r: usize)
    requires
        plane * stride + word <= usize::MAX,
    ensures
        r == plane * stride + word,
{
    assert(0 <= plane * stride) by (nonlinear_arith);
    plane * stride + word
}

} // verus!
