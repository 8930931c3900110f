//! Pauli operators as packed bit rows.
//!
//! An operator on `n` qubits is `i^k · X^a Z^b`: two rows of `n` bits and a
//! phase exponent modulo 4. In this normal form a `Y` site carries a factor of
//! `i`, since `Y = i·X·Z`. [`PauliOp`] is the mathematical operator the
//! contracts speak of; [`RowPauli`] and [`PauliString`] hold it in words.
use vstd::prelude::*;
use vstd::std_specs::bits::{axiom_u64_trailing_zeros, u64_trailing_zeros};
use crate::bits::{
    bit_word_count, lemma_row_bit_update, lemma_word_parity_xor, lemma_word_parity_zero, lemma_xor_below_ext,
    lemma_xor_below_split, lemma_xor_below_tail, lemma_xor_below_xor, ones_below, packed_bit,
    parity, row_bit, row_bits, word_bit, word_parity, words_for_bits, xor_below,
};

verus! {

broadcast use crate::bits::group_word_bits;

// ---------------------------------------------------------------------------
// The operators
// ---------------------------------------------------------------------------
/// `i^phase · X^x Z^z` on `x.len()` qubits.
#[verifier::ext_equal]
pub struct PauliOp {
    pub x: Seq<bool>,
    pub z: Seq<bool>,
    pub phase: int,
}

/// The bits of two rows XORed.
pub open spec fn xor_bits(a: Seq<bool>, b: Seq<bool>) -> Seq<bool> {
    Seq::new(a.len(), |i: int| a[i] != b[i])
}

/// `⟨a, b⟩` modulo 2.
pub open spec fn dot(a: Seq<bool>, b: Seq<bool>) -> bool {
    xor_below(|i: int| a[i] && b[i], a.len() as int)
}

/// 1 for true.
pub open spec fn bit01(b: bool) -> int {
    if b {
        1
    } else {
        0
    }
}

/// How many qubits hold a `Y`.
pub open spec fn y_count(x: Seq<bool>, z: Seq<bool>, n: int) -> int
    decreases n,
{
    if n <= 0 {
        0
    } else {
        y_count(x, z, n - 1) + bit01(x[n - 1] && z[n - 1])
    }
}

impl PauliOp {
    /// An operator on `n` qubits with a reduced phase.
    pub open spec fn on(self, n: int) -> bool {
        self.x.len() == n && self.z.len() == n && 0 <= self.phase < 4
    }

    /// The operator product `self · other`: moving `Z^b` past `X^a` costs
    /// `(-1)^⟨b, a⟩`.
    pub open spec fn times(self, other: PauliOp) -> PauliOp {
        PauliOp {
            x: xor_bits(self.x, other.x),
            z: xor_bits(self.z, other.z),
            phase: (self.phase + other.phase + 2 * bit01(dot(self.z, other.x))) % 4,
        }
    }

    /// `i^k · self`.
    pub open spec fn shifted(self, k: int) -> PauliOp {
        PauliOp { x: self.x, z: self.z, phase: (self.phase + k) % 4 }
    }

    /// Whether the two operators anticommute.
    pub open spec fn anticommutes(self, other: PauliOp) -> bool {
        dot(self.z, other.x) != dot(self.x, other.z)
    }

    /// Whether the operator equals its adjoint.
    pub open spec fn hermitian(self) -> bool {
        self.phase % 2 == bit01(dot(self.x, self.z))
    }

    /// A multiple of the identity.
    pub open spec fn scalar(self) -> bool {
        (forall|i: int| 0 <= i < self.x.len() ==> !#[trigger] self.x[i]) && (forall|i: int|
            0 <= i < self.z.len() ==> !#[trigger] self.z[i])
    }
}

/// The identity on `n` qubits.
pub open spec fn identity_op(n: int) -> PauliOp {
    PauliOp { x: Seq::new(n as nat, |i: int| false), z: Seq::new(n as nat, |i: int| false), phase: 0 }
}

/// `X_q` on `n` qubits.
pub open spec fn x_op(n: int, q: int) -> PauliOp {
    PauliOp { x: Seq::new(n as nat, |i: int| i == q), z: Seq::new(n as nat, |i: int| false), phase: 0 }
}

/// `Z_q` on `n` qubits.
pub open spec fn z_op(n: int, q: int) -> PauliOp {
    PauliOp { x: Seq::new(n as nat, |i: int| false), z: Seq::new(n as nat, |i: int| i == q), phase: 0 }
}

// ---------------------------------------------------------------------------
// Algebra
// ---------------------------------------------------------------------------
pub proof fn lemma_dot_symmetric(a: Seq<bool>, b: Seq<bool>)
    requires
        a.len() == b.len(),
    ensures
        dot(a, b) == dot(b, a),
{
    lemma_xor_below_ext(|i: int| a[i] && b[i], |i: int| b[i] && a[i], a.len() as int);
}

pub proof fn lemma_dot_xor_left(a: Seq<bool>, b: Seq<bool>, c: Seq<bool>)
    requires
        a.len() == b.len() == c.len(),
    ensures
        dot(xor_bits(a, b), c) == (dot(a, c) != dot(b, c)),
{
    lemma_xor_below_xor(
        |i: int| a[i] && c[i],
        |i: int| b[i] && c[i],
        |i: int| xor_bits(a, b)[i] && c[i],
        a.len() as int,
    );
}

pub proof fn lemma_dot_xor_right(a: Seq<bool>, b: Seq<bool>, c: Seq<bool>)
    requires
        a.len() == b.len() == c.len(),
    ensures
        dot(a, xor_bits(b, c)) == (dot(a, b) != dot(a, c)),
{
    lemma_xor_below_xor(
        |i: int| a[i] && b[i],
        |i: int| a[i] && c[i],
        |i: int| a[i] && xor_bits(b, c)[i],
        a.len() as int,
    );
}

/// A row that is clear has no overlap with anything.
pub proof fn lemma_dot_zero(a: Seq<bool>, b: Seq<bool>)
    requires
        a.len() == b.len(),
        (forall|i: int| 0 <= i < a.len() ==> !#[trigger] a[i]) || (forall|i: int|
            0 <= i < b.len() ==> !#[trigger] b[i]),
    ensures
        !dot(a, b),
{
    lemma_xor_below_tail(|i: int| a[i] && b[i], 0, a.len() as int);
}

/// The overlap with a row whose one set bit is `q`.
pub proof fn lemma_dot_unit(a: Seq<bool>, u: Seq<bool>, q: int)
    requires
        0 <= q < a.len(),
        u.len() == a.len(),
        forall|i: int| 0 <= i < a.len() ==> #[trigger] u[i] == (i == q),
    ensures
        dot(a, u) == a[q],
        dot(u, a) == a[q],
{
    let f = |i: int| a[i] && u[i];
    lemma_xor_below_tail(f, 0, q);
    assert(xor_below(f, q + 1) == a[q]);
    lemma_xor_below_tail(f, q + 1, a.len() as int);
    lemma_dot_symmetric(a, u);
}

pub proof fn lemma_times_on(n: int, p: PauliOp, q: PauliOp)
    requires
        p.on(n),
        q.on(n),
    ensures
        p.times(q).on(n),
{
}

/// The product is associative.
pub proof fn lemma_times_associative(n: int, p: PauliOp, q: PauliOp, r: PauliOp)
    requires
        p.on(n),
        q.on(n),
        r.on(n),
    ensures
        p.times(q).times(r) == p.times(q.times(r)),
{
    lemma_dot_xor_left(p.z, q.z, r.x);
    lemma_dot_xor_right(p.z, q.x, r.x);
    let a = p.times(q).times(r);
    let b = p.times(q.times(r));
    assert(a.x =~= b.x);
    assert(a.z =~= b.z);
    let d1 = bit01(dot(p.z, q.x));
    let d2 = bit01(dot(p.z, r.x));
    let d3 = bit01(dot(q.z, r.x));
    assert(a.phase == b.phase) by {
        assert(a.phase == ((p.phase + q.phase + 2 * d1) % 4 + r.phase + 2 * bit01(
            dot(xor_bits(p.z, q.z), r.x),
        )) % 4);
        assert(b.phase == (p.phase + (q.phase + r.phase + 2 * d3) % 4 + 2 * bit01(
            dot(p.z, xor_bits(q.x, r.x)),
        )) % 4);
    }
}

pub proof fn lemma_times_identity(n: int, p: PauliOp)
    requires
        p.on(n),
    ensures
        p.times(identity_op(n)) == p,
        identity_op(n).times(p) == p,
{
    lemma_dot_zero(p.z, identity_op(n).x);
    lemma_dot_zero(identity_op(n).z, p.x);
    assert(p.times(identity_op(n)) =~= p);
    assert(identity_op(n).times(p) =~= p);
}

/// Exchanging two factors costs a sign exactly when they anticommute.
pub proof fn lemma_times_exchange(n: int, p: PauliOp, q: PauliOp)
    requires
        p.on(n),
        q.on(n),
    ensures
        p.times(q) == q.times(p).shifted(2 * bit01(p.anticommutes(q))),
{
    lemma_dot_symmetric(q.z, p.x);
    assert(p.times(q).x =~= q.times(p).x);
    assert(p.times(q).z =~= q.times(p).z);
}

/// The phase shift moves freely through products.
pub proof fn lemma_times_shifted(n: int, p: PauliOp, q: PauliOp, k: int)
    requires
        p.on(n),
        q.on(n),
    ensures
        p.shifted(k).times(q) == p.times(q).shifted(k),
        p.times(q.shifted(k)) == p.times(q).shifted(k),
{
    assert(p.shifted(k).times(q) =~= p.times(q).shifted(k));
    assert(p.times(q.shifted(k)) =~= p.times(q).shifted(k));
}

pub proof fn lemma_shifted_twice(p: PauliOp, j: int, k: int)
    ensures
        p.shifted(j).shifted(k) == p.shifted(j + k),
{
}

/// Anticommutation is bilinear and symmetric, and blind to phases.
pub proof fn lemma_anticommutes_times(n: int, p: PauliOp, q: PauliOp, r: PauliOp)
    requires
        p.on(n),
        q.on(n),
        r.on(n),
    ensures
        p.times(q).anticommutes(r) == (p.anticommutes(r) != q.anticommutes(r)),
        r.anticommutes(p.times(q)) == (r.anticommutes(p) != r.anticommutes(q)),
{
    lemma_dot_xor_left(p.z, q.z, r.x);
    lemma_dot_xor_left(p.x, q.x, r.z);
    lemma_dot_xor_right(r.z, p.x, q.x);
    lemma_dot_xor_right(r.x, p.z, q.z);
}

pub proof fn lemma_anticommutes_symmetric(n: int, p: PauliOp, q: PauliOp)
    requires
        p.on(n),
        q.on(n),
    ensures
        p.anticommutes(q) == q.anticommutes(p),
        !p.anticommutes(p),
{
    lemma_dot_symmetric(p.z, q.x);
    lemma_dot_symmetric(p.x, q.z);
    lemma_dot_symmetric(p.z, p.x);
}

/// The square of an operator.
pub proof fn lemma_times_square(n: int, p: PauliOp)
    requires
        p.on(n),
    ensures
        p.times(p) == identity_op(n).shifted(2 * p.phase + 2 * bit01(dot(p.x, p.z))),
        p.hermitian() ==> p.times(p) == identity_op(n),
{
    lemma_dot_symmetric(p.z, p.x);
    assert(p.times(p) =~= identity_op(n).shifted(2 * p.phase + 2 * bit01(dot(p.x, p.z))));
    if p.hermitian() {
        assert(p.times(p) =~= identity_op(n));
    }
}

/// When the product of two Hermitian operators is Hermitian.
pub proof fn lemma_times_hermitian(n: int, p: PauliOp, q: PauliOp)
    requires
        p.on(n),
        q.on(n),
        p.hermitian(),
        q.hermitian(),
    ensures
        p.times(q).hermitian() == !p.anticommutes(q),
        p.times(q).shifted(1).hermitian() == p.anticommutes(q),
        p.times(q).shifted(3).hermitian() == p.anticommutes(q),
{
    let r = p.times(q);
    lemma_dot_xor_left(p.x, q.x, r.z);
    lemma_dot_xor_right(p.x, p.z, q.z);
    lemma_dot_xor_right(q.x, p.z, q.z);
    lemma_dot_symmetric(q.x, p.z);
    assert(dot(r.x, r.z) == ((dot(p.x, p.z) != dot(p.x, q.z)) != (dot(p.z, q.x) != dot(q.x, q.z))));
}

// ---------------------------------------------------------------------------
// Word rows
// ---------------------------------------------------------------------------
/// No bit is set at or beyond `n`.
pub open spec fn tail_clear(words: Seq<u64>, n: int) -> bool {
    forall|i: int| n <= i < 64 * words.len() ==> !#[trigger] row_bit(words, i)
}

/// `⟨a, b⟩` modulo 2 over all the bits of two rows of words.
pub open spec fn words_dot(a: Seq<u64>, b: Seq<u64>) -> bool {
    xor_below(|i: int| row_bit(a, i) && row_bit(b, i), 64 * a.len() as int)
}

pub proof fn lemma_words_dot(a: Seq<u64>, b: Seq<u64>, n: int)
    requires
        a.len() == b.len(),
        0 <= n <= 64 * a.len(),
        tail_clear(a, n) || tail_clear(b, n),
    ensures
        words_dot(a, b) == dot(row_bits(a, n), row_bits(b, n)),
{
    let f = |i: int| row_bit(a, i) && row_bit(b, i);
    lemma_xor_below_tail(f, n, 64 * a.len() as int);
    let g = |i: int| row_bits(a, n)[i] && row_bits(b, n)[i];
    lemma_xor_below_ext(f, g, n);
}

proof fn lemma_words_dot_step(a: Seq<u64>, b: Seq<u64>, k: int)
    requires
        a.len() == b.len(),
        0 <= k < a.len(),
    ensures
        ({
            let f = |i: int| row_bit(a, i) && row_bit(b, i);
            xor_below(f, 64 * (k + 1)) == (xor_below(f, 64 * k) != word_parity(a[k] & b[k]))
        }),
{
    let f = |i: int| row_bit(a, i) && row_bit(b, i);
    let g = |i: int| word_bit(a[k] & b[k], i);
    assert forall|i: int| 0 <= i < 64 implies #[trigger] g(i) == f(64 * k + i) by {
        assert((64 * k + i) / 64 == k && (64 * k + i) % 64 == i);
    }
    lemma_xor_below_split(f, g, 64 * k, 64);
}

/// Parity of `⟨a, b⟩` over whole words. Folding with XOR before a single
/// pop-count is valid because parity is linear per bit position.
pub fn dot_parity(a: &[u64], b: &[u64]) -> (r: bool)
    requires
        a@.len() == b@.len(),
    ensures
        r == words_dot(a@, b@),
{
    let ghost f = |i: int| row_bit(a@, i) && row_bit(b@, i);
    let mut acc: u64 = 0;
    let mut k: usize = 0;
    proof {
        lemma_word_parity_zero();
    }
    while k < a.len()
        invariant
            k <= a@.len(),
            a@.len() == b@.len(),
            f == (|i: int| row_bit(a@, i) && row_bit(b@, i)),
            word_parity(acc) == xor_below(f, 64 * k),
        decreases a@.len() - k,
    {
        proof {
            lemma_words_dot_step(a@, b@, k as int);
            lemma_word_parity_xor(acc, a@[k as int] & b@[k as int]);
        }
        acc = acc ^ (a[k] & b[k]);
        k += 1;
    }
    parity(acc)
}

/// `dst ^= src`, word by word.
pub fn xor_assign(dst: &mut Vec<u64>, src: &[u64])
    requires
        old(dst)@.len() == src@.len(),
    ensures
        final(dst)@.len() == old(dst)@.len(),
        forall|k: int| 0 <= k < src@.len() ==> #[trigger] final(dst)@[k] == old(dst)@[k] ^ src@[k],
        forall|i: int|
            0 <= i < 64 * src@.len() ==> #[trigger] row_bit(final(dst)@, i) == (row_bit(old(dst)@, i)
                != row_bit(src@, i)),
{
    let mut k: usize = 0;
    while k < src.len()
        invariant
            k <= src@.len(),
            dst@.len() == src@.len(),
            dst@.len() == old(dst)@.len(),
            forall|j: int| 0 <= j < k ==> #[trigger] dst@[j] == old(dst)@[j] ^ src@[j],
            forall|j: int| k <= j < src@.len() ==> #[trigger] dst@[j] == old(dst)@[j],
        decreases src@.len() - k,
    {
        let word: u64 = dst[k] ^ src[k];
        dst.set(k, word);
        k += 1;
    }
    assert forall|i: int| 0 <= i < 64 * src@.len() implies #[trigger] row_bit(dst@, i) == (row_bit(
        old(dst)@,
        i,
    ) != row_bit(src@, i)) by {
        assert(dst@[i / 64] == old(dst)@[i / 64] ^ src@[i / 64]);
    }
}

/// The positions in `list` are the set bits of `mask`, ascending.
pub open spec fn lists_bits(list: Seq<usize>, mask: Seq<u64>) -> bool {
    &&& forall|i: int, j: int| 0 <= i < j < list.len() ==> list[i] < list[j]
    &&& forall|i: int| 0 <= i < list.len() ==> row_bit(mask, #[trigger] list[i] as int)
    &&& forall|b: int| #[trigger] row_bit(mask, b) ==> exists|i: int| 0 <= i < list.len() && list[i] == b
}

/// The set bits of a word mask, in ascending index order.
pub fn set_bits(mask: &[u64]) -> (r: Vec<usize>)
    requires
        64 * mask@.len() <= usize::MAX,
    ensures
        lists_bits(r@, mask@),
{
    let mut out: Vec<usize> = Vec::new();
    let mut k: usize = 0;
    while k < mask.len()
        invariant
            k <= mask@.len(),
            64 * mask@.len() <= usize::MAX,
            forall|i: int, j: int| 0 <= i < j < out@.len() ==> out@[i] < out@[j],
            forall|i: int| 0 <= i < out@.len() ==> row_bit(mask@, #[trigger] out@[i] as int) && out@[i]
                < 64 * k,
            forall|b: int|
                b < 64 * k && #[trigger] row_bit(mask@, b) ==> exists|i: int|
                    0 <= i < out@.len() && out@[i] == b,
        decreases mask@.len() - k,
    {
        let word: u64 = mask[k];
        let mut rest: u64 = word;
        let ghost mut done: int = 0;
        while rest != 0
            invariant
                k < mask@.len(),
                word == mask@[k as int],
                64 * mask@.len() <= usize::MAX,
                0 <= done <= 64,
                forall|i: int| 0 <= i < 64 ==> #[trigger] word_bit(rest, i) == (i >= done && word_bit(
                    word,
                    i,
                )),
                forall|i: int, j: int| 0 <= i < j < out@.len() ==> out@[i] < out@[j],
                forall|i: int| 0 <= i < out@.len() ==> row_bit(mask@, #[trigger] out@[i] as int)
                    && out@[i] < 64 * k + done,
                forall|b: int|
                    b < 64 * k + done && #[trigger] row_bit(mask@, b) ==> exists|i: int|
                        0 <= i < out@.len() && out@[i] == b,
            decreases 64 - done,
        {
            let bit: u32 = rest.trailing_zeros();
            let offset: u64 = bit as u64;
            proof {
                axiom_u64_trailing_zeros(rest);
                assert(word_bit(rest, bit as int));
                assert forall|i: int| 0 <= i < bit implies !#[trigger] word_bit(rest, i) by {
                    assert((rest >> (i as u64)) & 1u64 == 0u64);
                }
            }
            let position: usize = 64 * k + bit as usize;
            let ghost before = out@;
            let ghost rest0 = rest;
            out.push(position);
            rest = rest ^ (1u64 << offset);
            proof {
                assert(position as int / 64 == k && position as int % 64 == bit);
                assert forall|b: int| b < 64 * k + bit + 1 && #[trigger] row_bit(mask@, b) implies exists|i: int|
                    0 <= i < out@.len() && out@[i] == b by {
                    if b == position {
                        assert(out@[out@.len() - 1] == b);
                    } else if b < 64 * k + done {
                        let i = choose|i: int| 0 <= i < before.len() && before[i] == b;
                        assert(out@[i] == b);
                    } else {
                        assert(b / 64 == k && b % 64 == b - 64 * k);
                        assert(word_bit(word, b % 64));
                        assert(word_bit(rest0, b % 64));
                    }
                }
                assert forall|i: int| 0 <= i < 64 implies #[trigger] word_bit(rest, i) == (i >= bit + 1
                    && word_bit(word, i)) by {
                    assert(word_bit(rest0, i) == (i >= done && word_bit(word, i)));
                    assert(word_bit(1u64 << offset, i) == (i == offset));
                }
                done = bit + 1;
            }
        }
        proof {
            assert forall|b: int| b < 64 * (k + 1) && #[trigger] row_bit(mask@, b) implies exists|i: int|
                0 <= i < out@.len() && out@[i] == b by {
                if b >= 64 * k + done {
                    assert(b / 64 == k && b % 64 == b - 64 * k);
                    assert(word_bit(word, b % 64));
                    assert(word_bit(rest, b % 64));
                }
            }
        }
        k += 1;
    }
    out
}

// ---------------------------------------------------------------------------
// Signed dense rows
// ---------------------------------------------------------------------------
/// A signed dense Pauli `i^phase · X^x · Z^z`, as raw word masks.
#[derive(Clone, Debug, PartialEq, Eq)]
pub struct RowPauli {
    /// X part.
    pub x: Vec<u64>,
    /// Z part.
    pub z: Vec<u64>,
    /// Phase exponent of the X-then-Z normal form, reduced mod 4.
    pub phase: u8,
}

impl RowPauli {
    /// A row of `words` words per half that acts on `n` qubits only.
    pub open spec fn wf(&self, n: int, words: int) -> bool {
        &&& self.x@.len() == words
        &&& self.z@.len() == words
        &&& 0 <= n <= 64 * words
        &&& tail_clear(self.x@, n)
        &&& tail_clear(self.z@, n)
        &&& self.phase < 4
    }

    /// The operator on `n` qubits that the row holds.
    pub open spec fn op(&self, n: int) -> PauliOp {
        PauliOp { x: row_bits(self.x@, n), z: row_bits(self.z@, n), phase: self.phase as int }
    }

    /// The identity, in `words` words per half.
    pub fn identity(words: usize) -> (r: Self)
        ensures
            r.phase == 0,
            r.x@.len() == words,
            r.z@.len() == words,
            forall|i: int| !#[trigger] row_bit(r.x@, i),
            forall|i: int| !#[trigger] row_bit(r.z@, i),
            forall|n: int| 0 <= n <= 64 * words ==> #[trigger] r.wf(n, words as int),
            forall|n: int| 0 <= n <= 64 * words ==> #[trigger] r.op(n) == identity_op(n),
    {
        let mut x: Vec<u64> = Vec::new();
        x.resize(words, 0u64);
        let mut z: Vec<u64> = Vec::new();
        z.resize(words, 0u64);
        let r = RowPauli { x, z, phase: 0 };
        assert forall|n: int| 0 <= n <= 64 * words implies #[trigger] r.wf(n, words as int) && r.op(n)
            == identity_op(n) by {
            assert(r.op(n) =~= identity_op(n));
        }
        r
    }

    /// `self <- self · src`.
    pub fn mul_right(&mut self, src: &RowPauli)
        requires
            old(self).x@.len() == src.x@.len(),
            old(self).z@.len() == src.x@.len(),
            src.z@.len() == src.x@.len(),
            old(self).phase < 4,
            src.phase < 4,
        ensures
            final(self).phase < 4,
            forall|n: int|
                old(self).wf(n, src.x@.len() as int) && #[trigger] src.wf(n, src.x@.len() as int)
                    ==> final(self).wf(n, src.x@.len() as int) && final(self).op(n) == old(self).op(
                    n,
                ).times(src.op(n)),
    {
        let crossed: bool = dot_parity(self.z.as_slice(), src.x.as_slice());
        let cross: u8 = if crossed {
            2
        } else {
            0
        };
        xor_assign(&mut self.x, src.x.as_slice());
        xor_assign(&mut self.z, src.z.as_slice());
        self.phase = (self.phase + cross + src.phase) % 4;
        proof {
            assert forall|n: int|
                old(self).wf(n, src.x@.len() as int) && #[trigger] src.wf(
                    n,
                    src.x@.len() as int,
                ) implies self.wf(n, src.x@.len() as int) && self.op(n) == old(self).op(n).times(
                src.op(n),
            ) by {
                lemma_words_dot(old(self).z@, src.x@, n);
                assert(self.op(n) =~= old(self).op(n).times(src.op(n)));
            }
        }
    }

    /// `self <- src · self`.
    pub fn mul_left(&mut self, src: &RowPauli)
        requires
            old(self).x@.len() == src.x@.len(),
            old(self).z@.len() == src.x@.len(),
            src.z@.len() == src.x@.len(),
            old(self).phase < 4,
            src.phase < 4,
        ensures
            final(self).phase < 4,
            forall|n: int|
                old(self).wf(n, src.x@.len() as int) && #[trigger] src.wf(n, src.x@.len() as int)
                    ==> final(self).wf(n, src.x@.len() as int) && final(self).op(n) == src.op(
                    n,
                ).times(old(self).op(n)),
    {
        let crossed: bool = dot_parity(self.x.as_slice(), src.z.as_slice());
        let cross: u8 = if crossed {
            2
        } else {
            0
        };
        xor_assign(&mut self.x, src.x.as_slice());
        xor_assign(&mut self.z, src.z.as_slice());
        self.phase = (self.phase + cross + src.phase) % 4;
        proof {
            assert forall|n: int|
                old(self).wf(n, src.x@.len() as int) && #[trigger] src.wf(
                    n,
                    src.x@.len() as int,
                ) implies self.wf(n, src.x@.len() as int) && self.op(n) == src.op(n).times(
                old(self).op(n),
            ) by {
                lemma_words_dot(old(self).x@, src.z@, n);
                lemma_dot_symmetric(old(self).op(n).x, src.op(n).z);
                assert(self.op(n) =~= src.op(n).times(old(self).op(n)));
            }
        }
    }
}

// ---------------------------------------------------------------------------
// Pauli strings
// ---------------------------------------------------------------------------
/// A single-qubit Pauli letter.
#[derive(Clone, Copy, Debug, PartialEq, Eq, Structural)]
pub enum Pauli {
    I,
    X,
    Y,
    Z,
}

impl Pauli {
    pub open spec fn has_x(self) -> bool {
        self == Pauli::X || self == Pauli::Y
    }

    pub open spec fn has_z(self) -> bool {
        self == Pauli::Y || self == Pauli::Z
    }
}

/// A single-qubit Pauli axis.
#[derive(Clone, Copy, Debug, PartialEq, Eq, Hash, Structural)]
pub enum PauliBasis {
    X,
    Y,
    Z,
}

impl PauliBasis {
    pub open spec fn has_x(self) -> bool {
        self == PauliBasis::X || self == PauliBasis::Y
    }

    pub open spec fn has_z(self) -> bool {
        self == PauliBasis::Y || self == PauliBasis::Z
    }

    /// The letter of the axis.
    pub open spec fn letter(self) -> Pauli {
        match self {
            PauliBasis::X => Pauli::X,
            PauliBasis::Y => Pauli::Y,
            PauliBasis::Z => Pauli::Z,
        }
    }

    /// The letter of the axis.
    pub fn to_pauli(self) -> (r: Pauli)
        ensures
            r == self.letter(),
    {
        match self {
            PauliBasis::X => Pauli::X,
            PauliBasis::Y => Pauli::Y,
            PauliBasis::Z => Pauli::Z,
        }
    }
}

/// A packed Pauli operator `i^phase · X^x Z^z` on `nqubits` qubits.
#[derive(Clone, Debug, PartialEq, Eq)]
pub struct PauliString {
    pub nqubits: usize,
    pub x: Vec<u64>,
    pub z: Vec<u64>,
    /// Phase exponent of the X-then-Z normal form, reduced mod 4.
    pub phase: u8,
}

/// How many bits two packed rows share.
pub open spec fn shared_bits(a: Seq<u64>, b: Seq<u64>, n: int) -> int
    decreases n,
{
    if n <= 0 {
        0
    } else {
        shared_bits(a, b, n - 1) + bit01(row_bit(a, n - 1) && row_bit(b, n - 1))
    }
}

proof fn lemma_shared_word(a: Seq<u64>, b: Seq<u64>, k: int, j: int)
    requires
        a.len() == b.len(),
        0 <= k < a.len(),
        0 <= j <= 64,
    ensures
        shared_bits(a, b, 64 * k + j) == shared_bits(a, b, 64 * k) + ones_below(a[k] & b[k], j),
    decreases j,
{
    if j > 0 {
        lemma_shared_word(a, b, k, j - 1);
        assert((64 * k + j - 1) / 64 == k && (64 * k + j - 1) % 64 == j - 1);
    }
}

proof fn lemma_shared_bound(a: Seq<u64>, b: Seq<u64>, n: int)
    requires
        0 <= n,
    ensures
        0 <= shared_bits(a, b, n) <= n,
    decreases n,
{
    if n > 0 {
        lemma_shared_bound(a, b, n - 1);
    }
}

/// Bits beyond a clear tail add nothing to the overlap.
pub proof fn lemma_shared_tail(a: Seq<u64>, b: Seq<u64>, m: int, n: int)
    requires
        0 <= m <= n,
        forall|i: int| m <= i < n ==> !#[trigger] row_bit(a, i),
    ensures
        shared_bits(a, b, n) == shared_bits(a, b, m),
    decreases n - m,
{
    if m < n {
        lemma_shared_tail(a, b, m, n - 1);
        assert(!row_bit(a, n - 1));
    }
}

pub proof fn lemma_shared_is_y_count(a: Seq<u64>, b: Seq<u64>, m: int, n: int)
    requires
        0 <= m <= n,
    ensures
        shared_bits(a, b, m) == y_count(row_bits(a, n), row_bits(b, n), m),
    decreases m,
{
    if m > 0 {
        lemma_shared_is_y_count(a, b, m - 1, n);
    }
}

/// The number of `Y` sites is odd exactly when the X part overlaps the Z part
/// oddly.
pub proof fn lemma_y_count_parity(x: Seq<bool>, z: Seq<bool>, n: int)
    requires
        0 <= n <= x.len(),
        x.len() == z.len(),
    ensures
        y_count(x, z, n) >= 0,
        y_count(x, z, n) % 2 == bit01(xor_below(|i: int| x[i] && z[i], n)),
    decreases n,
{
    if n > 0 {
        lemma_y_count_parity(x, z, n - 1);
    }
}

/// Counts the bits two rows share, modulo 4.
pub fn shared_bit_count(a: &[u64], b: &[u64]) -> (r: u8)
    requires
        a@.len() == b@.len(),
    ensures
        r == shared_bits(a@, b@, 64 * a@.len() as int) % 4,
{
    let mut total: u32 = 0;
    let mut k: usize = 0;
    while k < a.len()
        invariant
            k <= a@.len(),
            a@.len() == b@.len(),
            total < 4,
            total == shared_bits(a@, b@, 64 * k) % 4,
        decreases a@.len() - k,
    {
        proof {
            lemma_shared_word(a@, b@, k as int, 64);
            lemma_shared_bound(a@, b@, 64 * k);
            crate::bits::lemma_ones_bound(a@[k as int] & b@[k as int], 64);
        }
        let ones: u32 = (a[k] & b[k]).count_ones();
        total = (total + ones) % 4;
        k += 1;
    }
    total as u8
}

/// Writes bit `index` of a packed row.
pub fn assign_bit(words: &mut Vec<u64>, index: usize, value: bool)
    requires
        index < 64 * old(words)@.len(),
    ensures
        final(words)@.len() == old(words)@.len(),
        forall|i: int|
            0 <= i < 64 * old(words)@.len() ==> #[trigger] row_bit(final(words)@, i) == if i == index {
                value
            } else {
                row_bit(old(words)@, i)
            },
{
    let offset: u64 = (index % 64) as u64;
    let single: u64 = 1u64 << offset;
    let word: u64 = if value {
        words[index / 64] | single
    } else {
        words[index / 64] & !single
    };
    words.set(index / 64, word);
    proof {
        assert forall|i: int| 0 <= i < 64 * old(words)@.len() implies #[trigger] row_bit(words@, i)
            == if i == index {
            value
        } else {
            row_bit(old(words)@, i)
        } by {
            lemma_row_bit_update(old(words)@, index as int / 64, word, i);
            if i / 64 == index as int / 64 {
                assert(word_bit(single, i % 64) == (i % 64 == offset));
                assert(word_bit(!single, i % 64) == (i % 64 != offset));
            }
        }
    }
}

impl PauliString {
    /// The rows fit the qubit count and the phase is reduced.
    pub open spec fn wf(&self) -> bool {
        &&& self.x@.len() == words_for_bits(self.nqubits as int)
        &&& self.z@.len() == self.x@.len()
        &&& 64 * self.x@.len() <= usize::MAX
        &&& tail_clear(self.x@, self.nqubits as int)
        &&& tail_clear(self.z@, self.nqubits as int)
        &&& self.phase < 4
    }

    /// The operator the string holds.
    pub open spec fn op(&self) -> PauliOp {
        self.op_on(self.nqubits as int)
    }

    /// The operator read on a register of `n` qubits.
    pub open spec fn op_on(&self, n: int) -> PauliOp {
        PauliOp { x: row_bits(self.x@, n), z: row_bits(self.z@, n), phase: self.phase as int }
    }

    /// The number of `Y` sites.
    pub open spec fn y_sites(&self) -> int {
        y_count(self.op().x, self.op().z, self.nqubits as int)
    }

    /// The letter at qubit `q`.
    pub open spec fn letter(&self, q: int) -> Pauli {
        match (row_bit(self.x@, q), row_bit(self.z@, q)) {
            (false, false) => Pauli::I,
            (true, false) => Pauli::X,
            (true, true) => Pauli::Y,
            (false, true) => Pauli::Z,
        }
    }

    /// The identity on `nqubits` qubits.
    pub fn new(nqubits: usize) -> (r: Self)
        requires
            nqubits + 63 <= usize::MAX,
        ensures
            r.wf(),
            r.nqubits == nqubits,
            r.op() == identity_op(nqubits as int),
            forall|q: int| !#[trigger] row_bit(r.x@, q),
            forall|q: int| !#[trigger] row_bit(r.z@, q),
    {
        let words: usize = bit_word_count(nqubits);
        let mut x: Vec<u64> = Vec::new();
        x.resize(words, 0u64);
        let mut z: Vec<u64> = Vec::new();
        z.resize(words, 0u64);
        let r = PauliString { nqubits, x, z, phase: 0 };
        assert(r.op() =~= identity_op(nqubits as int));
        r
    }

    pub fn x_words(&self) -> (r: &[u64])
        ensures
            r@ == self.x@,
    {
        self.x.as_slice()
    }

    pub fn z_words(&self) -> (r: &[u64])
        ensures
            r@ == self.z@,
    {
        self.z.as_slice()
    }

    /// The phase exponent of the X-then-Z normal form.
    pub fn phase_exponent(&self) -> (r: u8)
        ensures
            r == self.phase,
    {
        self.phase
    }

    pub fn xbit(&self, q: usize) -> (r: bool)
        requires
            self.wf(),
            q < self.nqubits,
        ensures
            r == row_bit(self.x@, q as int),
    {
        packed_bit(self.x.as_slice(), q)
    }

    pub fn zbit(&self, q: usize) -> (r: bool)
        requires
            self.wf(),
            q < self.nqubits,
        ensures
            r == row_bit(self.z@, q as int),
    {
        packed_bit(self.z.as_slice(), q)
    }

    /// Writes the x-bit of one qubit, leaving the phase exponent alone.
    pub fn set_xbit(&mut self, q: usize, value: bool)
        requires
            old(self).wf(),
            q < old(self).nqubits,
        ensures
            final(self).wf(),
            final(self).nqubits == old(self).nqubits,
            final(self).z == old(self).z,
            final(self).phase == old(self).phase,
            forall|i: int| #[trigger] row_bit(final(self).x@, i) == if i == q {
                value
            } else {
                row_bit(old(self).x@, i)
            },
    {
        assign_bit(&mut self.x, q, value);
    }

    /// Writes the z-bit of one qubit, leaving the phase exponent alone.
    pub fn set_zbit(&mut self, q: usize, value: bool)
        requires
            old(self).wf(),
            q < old(self).nqubits,
        ensures
            final(self).wf(),
            final(self).nqubits == old(self).nqubits,
            final(self).x == old(self).x,
            final(self).phase == old(self).phase,
            forall|i: int| #[trigger] row_bit(final(self).z@, i) == if i == q {
                value
            } else {
                row_bit(old(self).z@, i)
            },
    {
        assign_bit(&mut self.z, q, value);
    }

    /// Replaces the phase exponent, taken modulo 4.
    pub fn set_phase(&mut self, phase: u8)
        requires
            old(self).wf(),
        ensures
            final(self).wf(),
            final(self).nqubits == old(self).nqubits,
            final(self).x == old(self).x,
            final(self).z == old(self).z,
            final(self).phase == phase % 4,
    {
        self.phase = phase % 4;
    }

    /// `i^k · self`.
    pub fn phase_shift(&mut self, k: u8)
        requires
            old(self).wf(),
        ensures
            final(self).wf(),
            final(self).nqubits == old(self).nqubits,
            final(self).x == old(self).x,
            final(self).z == old(self).z,
            final(self).op() == old(self).op().shifted(k as int),
    {
        self.phase = (self.phase + k % 4) % 4;
        assert(self.op() =~= old(self).op().shifted(k as int));
    }

    /// Writes the letter at one qubit. The phase moves with the `Y` sites, so a
    /// Hermitian string stays Hermitian with the same sign.
    pub fn set(&mut self, q: usize, letter: Pauli)
        requires
            old(self).wf(),
            q < old(self).nqubits,
        ensures
            final(self).wf(),
            final(self).nqubits == old(self).nqubits,
            forall|i: int| #[trigger] row_bit(final(self).x@, i) == if i == q {
                letter.has_x()
            } else {
                row_bit(old(self).x@, i)
            },
            forall|i: int| #[trigger] row_bit(final(self).z@, i) == if i == q {
                letter.has_z()
            } else {
                row_bit(old(self).z@, i)
            },
            final(self).phase == (old(self).phase + bit01(letter == Pauli::Y) - bit01(
                old(self).letter(q as int) == Pauli::Y,
            )) % 4,
            (final(self).phase - final(self).y_sites()) % 4 == (old(self).phase - old(self).y_sites())
                % 4,
    {
        let was_y: bool = self.xbit(q) && self.zbit(q);
        let is_y: bool = letter == Pauli::Y;
        let x: bool = letter == Pauli::X || letter == Pauli::Y;
        let z: bool = letter == Pauli::Z || letter == Pauli::Y;
        assign_bit(&mut self.x, q, x);
        assign_bit(&mut self.z, q, z);
        let delta: u8 = if is_y == was_y {
            0
        } else if is_y {
            1
        } else {
            3
        };
        self.phase = (self.phase + delta) % 4;
        proof {
            let n = self.nqubits as int;
            lemma_y_count_update(
                old(self).op().x,
                old(self).op().z,
                self.op().x,
                self.op().z,
                q as int,
                n,
            );
        }
    }

    /// Reads the letter at one qubit.
    pub fn get(&self, q: usize) -> (r: Pauli)
        requires
            self.wf(),
            q < self.nqubits,
        ensures
            r == self.letter(q as int),
    {
        let x: bool = self.xbit(q);
        let z: bool = self.zbit(q);
        if x {
            if z {
                Pauli::Y
            } else {
                Pauli::X
            }
        } else if z {
            Pauli::Z
        } else {
            Pauli::I
        }
    }

    /// One letter on one qubit.
    pub fn single(nqubits: usize, q: usize, letter: Pauli) -> (r: Self)
        requires
            nqubits + 63 <= usize::MAX,
            q < nqubits,
        ensures
            r.wf(),
            r.nqubits == nqubits,
            r.phase == bit01(letter == Pauli::Y),
            forall|i: int| #[trigger] row_bit(r.x@, i) == (i == q && letter.has_x()),
            forall|i: int| #[trigger] row_bit(r.z@, i) == (i == q && letter.has_z()),
            r.op().hermitian(),
            (r.phase - r.y_sites()) % 4 == 0,
    {
        let mut r = PauliString::new(nqubits);
        proof {
            lemma_y_count_clear(r.op().x, r.op().z, nqubits as int);
        }
        r.set(q, letter);
        proof {
            lemma_y_count_parity(r.op().x, r.op().z, nqubits as int);
        }
        r
    }

    /// Whether the two strings commute.
    pub fn commutes_with(&self, other: &PauliString) -> (r: bool)
        requires
            self.wf(),
            other.wf(),
            self.nqubits == other.nqubits,
        ensures
            r == !self.op().anticommutes(other.op()),
    {
        proof {
            lemma_words_dot(self.z@, other.x@, self.nqubits as int);
            lemma_words_dot(self.x@, other.z@, self.nqubits as int);
        }
        dot_parity(self.z.as_slice(), other.x.as_slice()) == dot_parity(
            self.x.as_slice(),
            other.z.as_slice(),
        )
    }

    /// An equal copy.
    pub fn duplicate(&self) -> (r: Self)
        ensures
            r.nqubits == self.nqubits,
            r.x@ == self.x@,
            r.z@ == self.z@,
            r.phase == self.phase,
            self.wf() ==> r.wf(),
    {
        let x: Vec<u64> = self.x.clone();
        let z: Vec<u64> = self.z.clone();
        assert(x@ =~= self.x@);
        assert(z@ =~= self.z@);
        PauliString { nqubits: self.nqubits, x, z, phase: self.phase }
    }
}

proof fn lemma_y_count_clear(x: Seq<bool>, z: Seq<bool>, n: int)
    requires
        0 <= n <= x.len(),
        forall|i: int| 0 <= i < n ==> !#[trigger] x[i],
    ensures
        y_count(x, z, n) == 0,
    decreases n,
{
    if n > 0 {
        lemma_y_count_clear(x, z, n - 1);
    }
}

proof fn lemma_y_count_update(
    x0: Seq<bool>,
    z0: Seq<bool>,
    x1: Seq<bool>,
    z1: Seq<bool>,
    q: int,
    n: int,
)
    requires
        0 <= n,
        n <= x0.len(),
        n <= x1.len(),
        n <= z0.len(),
        n <= z1.len(),
        0 <= q,
        forall|i: int| 0 <= i < n && i != q ==> #[trigger] x0[i] == x1[i],
        forall|i: int| 0 <= i < n && i != q ==> #[trigger] z0[i] == z1[i],
    ensures
        y_count(x1, z1, n) == y_count(x0, z0, n) + if q < n {
            bit01(x1[q] && z1[q]) - bit01(x0[q] && z0[q])
        } else {
            0
        },
    decreases n,
{
    if n > 0 {
        lemma_y_count_update(x0, z0, x1, z1, q, n - 1);
        if n - 1 != q {
            assert(x0[n - 1] == x1[n - 1] && z0[n - 1] == z1[n - 1]);
        }
    }
}

/// The sign of a Hermitian string: `Some(true)` for a negative one, `None` when
/// the coefficient is imaginary.
pub fn measurement_phase_sign(pauli: &PauliString) -> (r: Option<bool>)
    requires
        pauli.wf(),
    ensures
        r is Some <==> pauli.op().hermitian(),
        r matches Some(negative) ==> (pauli.phase - pauli.y_sites()) % 4 == if negative {
            2int
        } else {
            0int
        },
{
    let y: u8 = shared_bit_count(pauli.x.as_slice(), pauli.z.as_slice());
    let net: u8 = (pauli.phase + 4 - y) % 4;
    proof {
        let n = pauli.nqubits as int;
        lemma_shared_tail(pauli.x@, pauli.z@, n, 64 * pauli.x@.len() as int);
        lemma_shared_is_y_count(pauli.x@, pauli.z@, n, n);
        lemma_y_count_parity(pauli.op().x, pauli.op().z, n);
        assert(net == (pauli.phase - pauli.y_sites()) % 4);
    }
    if net % 2 != 0 {
        None
    } else {
        Some(net == 2)
    }
}

/// Whether two strings on the same register anticommute.
pub fn pauli_anticommutes(a: &PauliString, b: &PauliString) -> (r: bool)
    requires
        a.wf(),
        b.wf(),
        a.nqubits == b.nqubits,
    ensures
        r == a.op().anticommutes(b.op()),
{
    !a.commutes_with(b)
}

} // verus!
