//! Which amplitudes of the active state a Pauli relates, and by which power of `i`.
//!
//! A Pauli with masks `x` and `z` is `i^|x & z| X^x Z^z`. It takes basis state `b` to
//! `b ^ x`, times a power of `i`. A rotation mixes the two, and a projection keeps one
//! amplitude of every pair, at the index that leaves out the pair's lowest bit.
use vstd::prelude::*;
use vstd::std_specs::bits::{axiom_u64_trailing_zeros, u64_trailing_zeros};
use crate::bits::{
    group_word_bits, lemma_ones_bound, lemma_ones_parity, lemma_parity_join,
    lemma_word_parity_xor, ones_below, parity, word_bit, word_parity,
};
use crate::program::{MeasurementKernel, PauliAction};

verus! {

/// The amplitude of another basis state, times `i` to the power of `quarter`.
#[derive(Clone, Copy, Debug, PartialEq, Eq, Structural)]
pub struct Mix {
    pub other: usize,
    pub quarter: u8,
}

/// What a projection keeps at one index: the amplitude of `source`, alone or joined
/// with that of its partner.
#[derive(Clone, Copy, Debug, PartialEq, Eq, Structural)]
pub struct Joint {
    pub source: usize,
    pub mix: Option<Mix>,
}

// ---------------------------------------------------------------------------
// Rotations
// ---------------------------------------------------------------------------
/// The power of `i` by which the Pauli takes `basis` to its partner.
pub open spec fn pauli_quarter(action: PauliAction, basis: u64) -> int {
    let overlap = ones_below(action.xmask & action.zmask, 64) as int;
    (overlap + 2 * ones_below(action.zmask & basis, 64)) % 4
}

/// What the Pauli brings to `basis` from its partner, turned by a half where asked.
pub open spec fn mix_of(action: PauliAction, basis: u64, half_turn: bool) -> Mix {
    let other = basis ^ action.xmask;
    Mix {
        other: other as usize,
        quarter: ((pauli_quarter(action, other) + if half_turn {
            2int
        } else {
            0
        }) % 4) as u8,
    }
}

/// What the Pauli brings to each of `dim` basis states.
pub open spec fn mixes(action: PauliAction, dim: int) -> Seq<Mix> {
    Seq::new(dim as nat, |b: int| mix_of(action, b as u64, false))
}

fn pauli_mix(action: PauliAction, basis: u64, half_turn: bool) -> (r: Mix)
    ensures
        r == mix_of(action, basis, half_turn),
{
    let other: u64 = basis ^ action.xmask;
    let overlap: u32 = (action.xmask & action.zmask).count_ones();
    let signs: u32 = (action.zmask & other).count_ones();
    proof {
        lemma_ones_bound(action.xmask & action.zmask, 64);
        lemma_ones_bound(action.zmask & other, 64);
    }
    let turn: u32 = if half_turn {
        2
    } else {
        0
    };
    let quarter: u32 = (overlap + 2 * signs + turn) % 4;
    Mix { other: other as usize, quarter: quarter as u8 }
}

/// What a rotation about the Pauli mixes into each basis state.
pub fn rotation_mixes(action: PauliAction, dim: usize) -> (r: Vec<Mix>)
    ensures
        r@ == mixes(action, dim as int),
{
    let mut out: Vec<Mix> = Vec::new();
    let mut basis: usize = 0;
    while basis < dim
        invariant
            basis <= dim,
            out@ == mixes(action, basis as int),
        decreases dim - basis,
    {
        out.push(pauli_mix(action, basis as u64, false));
        basis += 1;
        assert(out@ =~= mixes(action, basis as int));
    }
    out
}

// ---------------------------------------------------------------------------
// Projections
// ---------------------------------------------------------------------------
/// The index with a zero put in at position `bit`: the bits from there on move up.
pub open spec fn widened(index: u64, bit: u64) -> u64 {
    if bit >= 64 {
        index
    } else {
        ((index & (0xffff_ffff_ffff_ffffu64 << bit)) << 1u64) | (index & !(0xffff_ffff_ffff_ffffu64
            << bit))
    }
}

/// The basis state without its bit at position `bit`: the bits above it move down.
pub open spec fn narrowed(basis: u64, bit: u64) -> u64 {
    if bit >= 64 {
        basis
    } else {
        ((basis >> 1u64) & (0xffff_ffff_ffff_ffffu64 << bit)) | (basis & !(0xffff_ffff_ffff_ffffu64
            << bit))
    }
}

/// The lowest bit of a mask.
pub open spec fn pivot(mask: u64) -> u64 {
    u64_trailing_zeros(mask) as u64
}

/// The basis state that a measurement of a diagonal Pauli keeps at `index`: of the two
/// that differ in the pivot alone, the one with the branch as its parity.
pub open spec fn diagonal_source(zmask: u64, minus: bool, index: u64) -> u64 {
    let low = widened(index, pivot(zmask));
    if pivot(zmask) >= 64 || word_parity(zmask & low) == minus {
        low
    } else {
        low | (1u64 << pivot(zmask))
    }
}

/// What the projection on a branch keeps at `index`. The branch of the eigenvalue -1 is
/// `minus`.
pub open spec fn joint_of(kernel: MeasurementKernel, minus: bool, index: u64) -> Joint {
    if kernel.is_diagonal {
        Joint {
            source: diagonal_source(kernel.action.zmask, minus, index) as usize,
            mix: None,
        }
    } else {
        let low = widened(index, pivot(kernel.action.xmask));
        Joint { source: low as usize, mix: Some(mix_of(kernel.action, low, minus)) }
    }
}

/// What the projection on a branch keeps, at each of `half` indices.
pub open spec fn joints(kernel: MeasurementKernel, minus: bool, half: int) -> Seq<Joint> {
    Seq::new(half as nat, |i: int| joint_of(kernel, minus, i as u64))
}

fn insert_zero_bit(index: u64, bit: u32) -> (r: u64)
    ensures
        r == widened(index, bit as u64),
{
    if bit >= 64 {
        index
    } else {
        let at: u64 = bit as u64;
        let high: u64 = 0xffff_ffff_ffff_ffffu64 << at;
        ((index & high) << 1u64) | (index & !high)
    }
}

fn projection_joint(kernel: MeasurementKernel, minus: bool, index: u64) -> (r: Joint)
    ensures
        r == joint_of(kernel, minus, index),
{
    if kernel.is_diagonal {
        let zmask: u64 = kernel.action.zmask;
        let bit: u32 = zmask.trailing_zeros();
        let low: u64 = insert_zero_bit(index, bit);
        let source: u64 = if bit >= 64 || parity(zmask & low) == minus {
            low
        } else {
            low | (1u64 << (bit as u64))
        };
        Joint { source: source as usize, mix: None }
    } else {
        let low: u64 = insert_zero_bit(index, kernel.action.xmask.trailing_zeros());
        Joint { source: low as usize, mix: Some(pauli_mix(kernel.action, low, minus)) }
    }
}

/// What the projection on a branch keeps.
pub fn projection_joints(kernel: MeasurementKernel, minus: bool, half: usize) -> (r: Vec<Joint>)
    ensures
        r@ == joints(kernel, minus, half as int),
{
    let mut out: Vec<Joint> = Vec::new();
    let mut index: usize = 0;
    while index < half
        invariant
            index <= half,
            out@ == joints(kernel, minus, index as int),
        decreases half - index,
    {
        out.push(projection_joint(kernel, minus, index as u64));
        index += 1;
        assert(out@ =~= joints(kernel, minus, index as int));
    }
    out
}

// ---------------------------------------------------------------------------
// Laws
// ---------------------------------------------------------------------------
/// A Pauli undoes itself: the partner's partner is the state, and the two powers of
/// `i` cancel.
pub proof fn law_a_pauli_undoes_itself(action: PauliAction, basis: u64)
    ensures
        (basis ^ action.xmask) ^ action.xmask == basis,
        (pauli_quarter(action, basis) + pauli_quarter(action, basis ^ action.xmask)) % 4 == 0,
{
    let x = action.xmask;
    let z = action.zmask;
    let other = basis ^ x;
    assert((basis ^ x) ^ x == basis && z & (basis ^ x) == (z & basis) ^ (x & z)) by (bit_vector);
    lemma_word_parity_xor(z & basis, x & z);
    lemma_ones_parity(z & basis, 64);
    lemma_ones_parity(x & z, 64);
    lemma_ones_parity(z & other, 64);
    let a = ones_below(x & z, 64) as int;
    let b = ones_below(z & basis, 64) as int;
    let c = ones_below(z & other, 64) as int;
    assert((a + b + c) % 2 == 0);
    assert((a + 2 * b + (a + 2 * c)) == 2 * (a + b + c));
}

proof fn lemma_widened_raw(index: u64, basis: u64, bit: u64, n: u64, high: u64, wide: u64, thin: u64)
    by (bit_vector)
    requires
        0 < n < 64,
        bit < n,
        high == 0xffff_ffff_ffff_ffffu64 << bit,
        index < 1u64 << (n - 1) as u64,
        basis < 1u64 << n,
        wide == ((index & high) << 1u64) | (index & !high),
        thin == ((basis >> 1u64) & high) | (basis & !high),
    ensures
        wide < 1u64 << n,
        (wide | (1u64 << bit)) < 1u64 << n,
        wide & (1u64 << bit) == 0,
        ((wide >> 1u64) & high) | (wide & !high) == index,
        (((wide | (1u64 << bit)) >> 1u64) & high) | ((wide | (1u64 << bit)) & !high) == index,
        thin < 1u64 << (n - 1) as u64,
        ((thin & high) << 1u64) | (thin & !high) == basis & !(1u64 << bit),
{
}

/// Putting a bit in and leaving it out undo each other, within `n` qubits.
proof fn lemma_widened(index: u64, basis: u64, bit: u64, n: u64)
    requires
        0 < n < 64,
        bit < n,
        index < 1u64 << (n - 1) as u64,
        basis < 1u64 << n,
    ensures
        widened(index, bit) < 1u64 << n,
        (widened(index, bit) | (1u64 << bit)) < 1u64 << n,
        !word_bit(widened(index, bit), bit as int),
        narrowed(widened(index, bit), bit) == index,
        narrowed(widened(index, bit) | (1u64 << bit), bit) == index,
        narrowed(basis, bit) < 1u64 << (n - 1) as u64,
        widened(narrowed(basis, bit), bit) == basis & !(1u64 << bit),
{
    let high = 0xffff_ffff_ffff_ffffu64 << bit;
    let wide = widened(index, bit);
    let thin = narrowed(basis, bit);
    lemma_widened_raw(index, basis, bit, n, high, wide, thin);
    assert((wide >> bit) & 1u64 == 0u64) by (bit_vector)
        requires
            wide & (1u64 << bit) == 0,
            bit < 64,
    ;
}

/// The lowest bit of a mask of `n` qubits is one of them.
pub proof fn lemma_pivot(mask: u64, n: u64)
    requires
        0 < n < 64,
        0 < mask < 1u64 << n,
    ensures
        pivot(mask) < n,
        word_bit(mask, pivot(mask) as int),
{
    axiom_u64_trailing_zeros(mask);
    let p = pivot(mask);
    assert((mask >> p) & 1u64 == 1u64);
    assert(p < n) by (bit_vector)
        requires
            mask < 1u64 << n,
            (mask >> p) & 1u64 == 1u64,
            n < 64,
            p < 64,
    ;
}

/// The projection on a branch of a diagonal Pauli on `n` qubits reads the basis states
/// whose parity is the branch, each of them once: `index` reads such a state, and such a
/// state `basis` is read at the index that leaves out the pivot.
pub proof fn law_a_diagonal_projection_reads_its_branch(
    zmask: u64,
    minus: bool,
    n: u64,
    index: u64,
    basis: u64,
)
    requires
        0 < n < 64,
        0 < zmask < 1u64 << n,
        index < 1u64 << (n - 1) as u64,
        basis < 1u64 << n,
    ensures
        diagonal_source(zmask, minus, index) < 1u64 << n,
        word_parity(zmask & diagonal_source(zmask, minus, index)) == minus,
        narrowed(diagonal_source(zmask, minus, index), pivot(zmask)) == index,
        narrowed(basis, pivot(zmask)) < 1u64 << (n - 1) as u64,
        word_parity(zmask & basis) == minus ==> diagonal_source(
            zmask,
            minus,
            narrowed(basis, pivot(zmask)),
        ) == basis,
{
    let p = pivot(zmask);
    lemma_pivot(zmask, n);
    lemma_widened(index, basis, p, n);
    lemma_parity_join(zmask, widened(index, p), p);
    let low = widened(narrowed(basis, p), p);
    assert(!word_bit(low, p as int) && (basis == low || basis == low | (1u64 << p))) by {
        assert((low >> p) & 1u64 == 0u64 && (basis == low || basis == low | (1u64 << p)))
            by (bit_vector)
            requires
                low == basis & !(1u64 << p),
                p < 64,
        ;
    }
    lemma_parity_join(zmask, low, p);
}

/// The projection on a branch of a Pauli with an `X` part reads every basis state of
/// its `n` qubits once, as a source or as a source's partner: sources lack the pivot
/// and partners have it.
pub proof fn law_a_projection_reads_every_pair(xmask: u64, n: u64, index: u64, basis: u64)
    requires
        0 < n < 64,
        0 < xmask < 1u64 << n,
        index < 1u64 << (n - 1) as u64,
        basis < 1u64 << n,
    ensures
        widened(index, pivot(xmask)) < 1u64 << n,
        widened(index, pivot(xmask)) ^ xmask < 1u64 << n,
        !word_bit(widened(index, pivot(xmask)), pivot(xmask) as int),
        word_bit(widened(index, pivot(xmask)) ^ xmask, pivot(xmask) as int),
        narrowed(widened(index, pivot(xmask)), pivot(xmask)) == index,
        !word_bit(basis, pivot(xmask) as int) ==> {
            let at = narrowed(basis, pivot(xmask));
            at < 1u64 << (n - 1) as u64 && widened(at, pivot(xmask)) == basis
        },
        word_bit(basis, pivot(xmask) as int) ==> {
            let at = narrowed(basis ^ xmask, pivot(xmask));
            at < 1u64 << (n - 1) as u64 && widened(at, pivot(xmask)) ^ xmask == basis
        },
{
    broadcast use group_word_bits;

    let p = pivot(xmask);
    lemma_pivot(xmask, n);
    let wide = widened(index, p);
    lemma_widened(index, basis, p, n);
    assert(wide ^ xmask < 1u64 << n && basis ^ xmask < 1u64 << n && (basis ^ xmask) ^ xmask == basis)
        by (bit_vector)
        requires
            wide < 1u64 << n,
            xmask < 1u64 << n,
            basis < 1u64 << n,
            n < 64,
    ;
    let other = basis ^ xmask;
    lemma_widened(index, other, p, n);
    assert(word_bit(other, p as int) == !word_bit(basis, p as int));
    lemma_cleared(basis, p);
    lemma_cleared(other, p);
}

proof fn lemma_cleared(w: u64, p: u64)
    requires
        p < 64,
    ensures
        !word_bit(w, p as int) ==> w & !(1u64 << p) == w,
{
    assert(!((w >> p) & 1u64 == 1u64) ==> w & !(1u64 << p) == w) by (bit_vector)
        requires
            p < 64,
    ;
}

} // verus!
