//! Which operator a pair of masks stands for: the Paulis of one letter, and products of
//! Paulis on different qubits.
use vstd::prelude::*;
use crate::amplitudes::{joint_of, mix_of, pauli_quarter, pivot, widened};
use crate::bits::{group_word_bits, ones_below, word_bit};
use crate::program::{MeasurementKernel, PauliAction};

verus! {

/// A word with one bit set.
pub open spec fn unit(q: int) -> u64 {
    1u64 << (q as u64)
}

proof fn lemma_unit_ones(q: int, basis: u64, n: int)
    requires
        0 <= q < 64,
        0 <= n <= 64,
    ensures
        ones_below(unit(q) & basis, n) == if q < n && word_bit(basis, q) {
            1nat
        } else {
            0nat
        },
    decreases n,
{
    broadcast use group_word_bits;

    if n > 0 {
        lemma_unit_ones(q, basis, n - 1);
    }
}

proof fn lemma_no_ones(n: int)
    requires
        0 <= n <= 64,
    ensures
        ones_below(0u64, n) == 0,
    decreases n,
{
    broadcast use group_word_bits;

    if n > 0 {
        lemma_no_ones(n - 1);
    }
}

/// `X` of a qubit takes every basis state to the one with that bit flipped, without a
/// factor.
pub proof fn law_x_flips_its_bit(nqubits: usize, q: int, basis: u64)
    requires
        0 <= q < 64,
    ensures
        ({
            let mix = mix_of(PauliAction { nqubits, xmask: unit(q), zmask: 0 }, basis, false);
            mix.other == (basis ^ unit(q)) as usize && mix.quarter == 0
        }),
{
    let u = unit(q);
    let other = basis ^ u;
    assert(u & 0u64 == 0u64 && 0u64 & other == 0u64) by (bit_vector);
    lemma_no_ones(64);
}

/// `Z` of a qubit keeps every basis state, and negates those with that bit set.
pub proof fn law_z_negates_its_bit(nqubits: usize, q: int, basis: u64)
    requires
        0 <= q < 64,
    ensures
        ({
            let mix = mix_of(PauliAction { nqubits, xmask: 0, zmask: unit(q) }, basis, false);
            mix.other == basis as usize && mix.quarter == if word_bit(basis, q) {
                2int
            } else {
                0
            }
        }),
{
    let u = unit(q);
    assert(0u64 & u == 0u64 && basis ^ 0u64 == basis) by (bit_vector);
    lemma_no_ones(64);
    lemma_unit_ones(q, basis, 64);
}

/// `Y` of a qubit flips the bit: a basis state with the bit set gets `i` times the one
/// without it, and one without it gets `-i` times the one with it.
pub proof fn law_y_flips_its_bit_by_a_quarter(nqubits: usize, q: int, basis: u64)
    requires
        0 <= q < 64,
    ensures
        ({
            let mix = mix_of(PauliAction { nqubits, xmask: unit(q), zmask: unit(q) }, basis, false);
            mix.other == (basis ^ unit(q)) as usize && mix.quarter == if word_bit(basis, q) {
                1int
            } else {
                3
            }
        }),
{
    broadcast use group_word_bits;

    let u = unit(q);
    let other = basis ^ u;
    lemma_unit_ones(q, u, 64);
    lemma_unit_ones(q, other, 64);
    assert(word_bit(other, q) == !word_bit(basis, q));
}

proof fn lemma_ones_joined(p: u64, q: u64, basis: u64, n: int)
    requires
        p & q == 0,
        0 <= n <= 64,
    ensures
        ones_below((p | q) & basis, n) == ones_below(p & basis, n) + ones_below(q & basis, n),
    decreases n,
{
    broadcast use group_word_bits;

    if n > 0 {
        lemma_ones_joined(p, q, basis, n - 1);
        assert(!word_bit(p & q, n - 1));
        assert(word_bit((p | q) & basis, n - 1) == (word_bit(p & basis, n - 1) || word_bit(
            q & basis,
            n - 1,
        )));
    }
}

/// A Pauli made of two on different qubits flips what both flip, and its power of `i` is
/// the sum of theirs.
pub proof fn law_paulis_on_different_qubits_multiply(first: PauliAction, second: PauliAction, basis: u64)
    requires
        (first.xmask | first.zmask) & (second.xmask | second.zmask) == 0,
    ensures
        ({
            let both = PauliAction {
                nqubits: first.nqubits,
                xmask: first.xmask | second.xmask,
                zmask: first.zmask | second.zmask,
            };
            let a = mix_of(first, basis, false);
            let b = mix_of(second, basis, false);
            let mix = mix_of(both, basis, false);
            &&& basis ^ both.xmask == (basis ^ first.xmask) ^ second.xmask
            &&& mix.other == (basis ^ both.xmask) as usize
            &&& mix.quarter == (a.quarter + b.quarter) % 4
        }),
{
    let (x, z) = (first.xmask, first.zmask);
    let (v, w) = (second.xmask, second.zmask);
    let other = basis ^ (x | v);
    let left = basis ^ x;
    let right = basis ^ v;
    assert(z & w == 0 && basis ^ (x | v) == (basis ^ x) ^ v && (x | v) & (z | w) == (x & z) | (v & w) && (
    x & z) & (v & w) == 0 && z & (basis ^ (x | v)) == z & (basis ^ x) && w & (basis ^ (x | v)) == w & (
    basis ^ v)) by (bit_vector)
        requires
            (x | z) & (v | w) == 0u64,
    ;
    lemma_ones_joined(z, w, other, 64);
    let all = 0xffff_ffff_ffff_ffffu64;
    lemma_ones_joined(x & z, v & w, all, 64);
    let s = x & z;
    let t = v & w;
    assert((s | t) & all == s | t && s & all == s && t & all == t) by (bit_vector)
        requires
            all == 0xffff_ffff_ffff_ffffu64,
    ;
}

/// The two branches of a Pauli with an `X` part join the same pairs, with opposite signs;
/// the branch of the eigenvalue +1 joins what the Pauli brings.
pub proof fn law_branches_join_with_opposite_signs(kernel: MeasurementKernel, index: u64)
    requires
        !kernel.is_diagonal,
    ensures
        ({
            let plus = joint_of(kernel, false, index);
            let minus = joint_of(kernel, true, index);
            let low = widened(index, pivot(kernel.action.xmask));
            &&& plus.source == low as usize
            &&& minus.source == plus.source
            &&& plus.mix is Some
            &&& minus.mix is Some
            &&& (plus.mix->0).other == (low ^ kernel.action.xmask) as usize
            &&& (minus.mix->0).other == (plus.mix->0).other
            &&& (plus.mix->0).quarter == pauli_quarter(kernel.action, low ^ kernel.action.xmask)
            &&& (minus.mix->0).quarter == ((plus.mix->0).quarter + 2) % 4
        }),
{
}

} // verus!
