//! What a merge of tensor factors means.
//!
//! The qubits of the target stay the low ones and keep their order, and the qubits of
//! the source follow them. So the masks of a Pauli on the target's qubits serve the
//! merged state as they are, and those of a Pauli on the source's qubits move up by the
//! width of the target.
use vstd::prelude::*;
use crate::amplitudes::{joint_of, lemma_pivot, mixes, pauli_quarter, pivot, widened};
use crate::bits::ones_below;
use crate::executor::{dimension, lemma_dimension_sum};
use crate::kernels::{product_of, ActiveKernels};
use crate::lanes::tensor;
use crate::model::{merge, merge_one, Block, Shot};
use crate::program::{MeasurementKernel, PauliAction};

verus! {

/// The basis state with `low` on the first qubits and `high` on those from `width` on.
pub open spec fn joined_state(low: u64, high: u64, width: u64) -> u64 {
    low | (high << width)
}

proof fn lemma_joined_raw(low: u64, high: u64, width: u64, x: u64, z: u64)
    by (bit_vector)
    requires
        width < 64,
        low < 1u64 << width,
        x < 1u64 << width,
        z < 1u64 << width,
        high <= 0xffff_ffff_ffff_ffffu64 >> width,
    ensures
        low | (high << width) == low + high * (1u64 << width),
        (low | (high << width)) ^ x == (low ^ x) | (high << width),
        low ^ x < 1u64 << width,
        z & (low | (high << width)) == z & low,
{
}

proof fn lemma_raised_raw(low: u64, high: u64, width: u64, x: u64, z: u64)
    by (bit_vector)
    requires
        width < 64,
        low < 1u64 << width,
        x <= 0xffff_ffff_ffff_ffffu64 >> width,
        z <= 0xffff_ffff_ffff_ffffu64 >> width,
        high <= 0xffff_ffff_ffff_ffffu64 >> width,
    ensures
        (low | (high << width)) ^ (x << width) == low | ((high ^ x) << width),
        high ^ x <= 0xffff_ffff_ffff_ffffu64 >> width,
        (z << width) & (low | (high << width)) == (z & high) << width,
        (x << width) & (z << width) == (x & z) << width,
        z & high <= 0xffff_ffff_ffff_ffffu64 >> width,
        x & z <= 0xffff_ffff_ffff_ffffu64 >> width,
{
}

proof fn lemma_width(width: u64)
    requires
        width < 64,
    ensures
        dimension(width as int) == 1u64 << width,
    decreases width,
{
    if width == 0 {
        assert(1u64 << 0u64 == 1u64) by (bit_vector);
    } else {
        let less = (width - 1) as u64;
        lemma_width(less);
        assert((1u64 << width) == 2 * (1u64 << less)) by (bit_vector)
            requires
                width < 64,
                width > 0,
                less == width - 1,
        ;
    }
}

/// Amplitude `t + u·2^k` of a merged state is the target's amplitude at `t` times the
/// source's at `u`, where `k` is the number of the target's qubits. The target grows by
/// the qubits of the source, which is switched off, and nothing else of any shot
/// changes.
pub proof fn law_a_merge_is_a_product_state<A, K: ActiveKernels<A>>(
    k: &K,
    b: Block<A>,
    target: int,
    source: int,
    s: int,
    t: int,
    u: int,
)
    requires
        0 <= target < b.parts.len(),
        0 <= source < b.parts.len(),
        0 <= b.parts[target].k,
        0 <= b.parts[source].k,
        0 <= s < b.shots.len(),
        b.shots[s].lanes.len() == b.parts.len(),
        b.shots[s].lanes[target].len() == dimension(b.parts[target].k),
        b.shots[s].lanes[source].len() == dimension(b.parts[source].k),
        0 <= t < dimension(b.parts[target].k),
        0 <= u < dimension(b.parts[source].k),
        merge_one(k, b, target, source) is Ok,
    ensures
        ({
            let after = merge_one(k, b, target, source)->Ok_0;
            let lanes = b.shots[s].lanes;
            let merged = after.shots[s].lanes;
            &&& source != target && b.parts[source].active
            &&& after.parts[target].k == b.parts[target].k + b.parts[source].k
            &&& after.parts[target].active == b.parts[target].active
            &&& after.parts[source].k == 0 && !after.parts[source].active
            &&& merged[target].len() == dimension(b.parts[target].k + b.parts[source].k)
            &&& 0 <= t + u * dimension(b.parts[target].k) < merged[target].len()
            &&& merged[target][t + u * dimension(b.parts[target].k)] == product_of(
                k,
                lanes[target][t],
                lanes[source][u],
            )
            &&& merged[source].len() == 0
            &&& merged.len() == lanes.len()
            &&& forall|j: int|
                0 <= j < lanes.len() && j != target && j != source ==> #[trigger] merged[j]
                    == lanes[j] && after.parts[j] == b.parts[j]
            &&& after.shots.len() == b.shots.len()
            &&& after.shots[s] == (Shot { lanes: merged, ..b.shots[s] })
            &&& after == (Block { parts: after.parts, shots: after.shots, ..b })
        }),
{
    let dim = dimension(b.parts[target].k);
    let wide = dimension(b.parts[source].k);
    lemma_dimension_sum(b.parts[target].k, b.parts[source].k);
    lemma_product_index(t, u, dim, wide);
    let after = merge_one(k, b, target, source)->Ok_0;
    assert(after.shots[s].lanes[target] == tensor(
        k,
        b.shots[s].lanes[target],
        b.shots[s].lanes[source],
    ));
    assert(after.parts.len() == b.parts.len());
}

proof fn lemma_product_index(t: int, u: int, dim: int, wide: int)
    requires
        0 <= t < dim,
        0 <= u < wide,
    ensures
        0 <= t + u * dim < dim * wide,
        (t + u * dim) % dim == t,
        (t + u * dim) / dim == u,
{
    assert(0 <= t + u * dim < dim * wide) by (nonlinear_arith)
        requires
            0 <= t < dim,
            0 <= u < wide,
    ;
    vstd::arithmetic::div_mod::lemma_fundamental_div_mod_converse(t + u * dim, dim, u, t);
}

/// A list of parts is merged from its first to its last: merging one part more merges
/// it into what the others have become.
pub proof fn law_parts_are_merged_in_order<A, K: ActiveKernels<A>>(
    k: &K,
    b: Block<A>,
    list: Seq<usize>,
    offset: int,
    count: int,
    expected: int,
)
    requires
        0 <= offset,
        0 < count,
        offset + count + 1 <= list.len(),
        0 <= expected,
    ensures
        merge(k, b, list, offset, count + 1, expected) == match merge(
            k,
            b,
            list,
            offset,
            count,
            expected,
        ) {
            Ok(merged) => merge_one(k, merged, expected, list[offset + count] as int),
            Err(text) => Err(text),
        },
        merge(k, b, list, offset, 1, expected) is Ok ==> merge(k, b, list, offset, 1, expected)->Ok_0
            == b && list[offset] == expected && b.parts[expected].active,
{
    if list[offset] == expected && list[offset] < b.parts.len() && b.parts[expected].active {
        lemma_merge_last(k, b, list, expected, offset + 1, offset + count);
    }
}

proof fn lemma_merge_last<A, K: ActiveKernels<A>>(
    k: &K,
    b: Block<A>,
    list: Seq<usize>,
    target: int,
    from: int,
    end: int,
)
    requires
        from <= end,
    ensures
        crate::model::merge_from(k, b, list, target, from, end + 1)
            == match crate::model::merge_from(k, b, list, target, from, end) {
            Ok(merged) => merge_one(k, merged, target, list[end] as int),
            Err(text) => Err(text),
        },
    decreases end - from,
{
    reveal_with_fuel(crate::model::merge_from, 2);
    if from < end {
        match merge_one(k, b, target, list[from] as int) {
            Ok(next) => {
                lemma_merge_last(k, next, list, target, from + 1, end);
            },
            Err(_) => {},
        }
    }
}

proof fn lemma_ones_raised(w: u64, width: u64, n: int)
    requires
        width < 64,
        w <= 0xffff_ffff_ffff_ffffu64 >> width,
        0 <= n <= 64,
    ensures
        ones_below(w << width, n) == ones_below(w, if n < width {
            0
        } else {
            n - width
        }),
    decreases n,
{
    if n > 0 {
        lemma_ones_raised(w, width, n - 1);
        let i = (n - 1) as u64;
        assert(i < 64 && width < 64 ==> ((((w << width) >> i) & 1u64 == 1u64) == (i >= width && (w >> (
        (i - width) as u64)) & 1u64 == 1u64))) by (bit_vector);
    }
}

proof fn lemma_ones_short(w: u64, width: u64, n: int)
    requires
        width < 64,
        w <= 0xffff_ffff_ffff_ffffu64 >> width,
        64 - width <= n <= 64,
    ensures
        ones_below(w, n) == ones_below(w, 64 - width),
    decreases n,
{
    if n > 64 - width {
        lemma_ones_short(w, width, n - 1);
        let i = (n - 1) as u64;
        assert(!((w >> i) & 1u64 == 1u64)) by (bit_vector)
            requires
                width < 64,
                w <= 0xffff_ffff_ffff_ffffu64 >> width,
                i < 64,
                i >= 64 - width,
        ;
    }
}

/// A Pauli on the target's qubits relates the merged amplitudes as it relates the
/// target's, with the same masks: it pairs `low` with the same partner whatever the
/// source's qubits hold, by the same power of `i`. One on the source's qubits, with its
/// masks moved up by the width of the target, relates them as it relates the source's.
pub proof fn law_a_pauli_on_one_factor_leaves_the_other(
    action: PauliAction,
    raised: PauliAction,
    width: u64,
    low: u64,
    high: u64,
)
    requires
        width < 64,
        low < 1u64 << width,
        high <= 0xffff_ffff_ffff_ffffu64 >> width,
        action.xmask <= 0xffff_ffff_ffff_ffffu64 >> width,
        action.zmask <= 0xffff_ffff_ffff_ffffu64 >> width,
        raised.xmask == action.xmask << width,
        raised.zmask == action.zmask << width,
    ensures
        joined_state(low, high, width) == low + high * dimension(width as int),
        action.xmask < 1u64 << width && action.zmask < 1u64 << width ==> {
            &&& joined_state(low, high, width) ^ action.xmask == joined_state(
                low ^ action.xmask,
                high,
                width,
            )
            &&& low ^ action.xmask < 1u64 << width
            &&& pauli_quarter(action, joined_state(low, high, width)) == pauli_quarter(action, low)
        },
        joined_state(low, high, width) ^ raised.xmask == joined_state(
            low,
            high ^ action.xmask,
            width,
        ),
        high ^ action.xmask <= 0xffff_ffff_ffff_ffffu64 >> width,
        pauli_quarter(raised, joined_state(low, high, width)) == pauli_quarter(action, high),
{
    let x = action.xmask;
    let z = action.zmask;
    lemma_width(width);
    lemma_joined_raw(low, high, width, 0, 0);
    if x < 1u64 << width && z < 1u64 << width {
        lemma_joined_raw(low, high, width, x, z);
    }
    lemma_raised_raw(low, high, width, x, z);
    lemma_ones_raised(x & z, width, 64);
    lemma_ones_short(x & z, width, 64);
    lemma_ones_raised(z & high, width, 64);
    lemma_ones_short(z & high, width, 64);
}

/// A rotation about a Pauli of the target reads, at every merged amplitude, the product
/// of what it reads at the target's own amplitude with the source's: the rotation and
/// the merge can change places.
pub proof fn law_a_rotation_of_the_target_commutes_with_a_merge<A, K: ActiveKernels<A>>(
    k: &K,
    action: PauliAction,
    width: u64,
    target: Seq<A>,
    source: Seq<A>,
    t: u64,
    u: u64,
)
    requires
        width < 64,
        action.xmask < 1u64 << width,
        action.zmask < 1u64 << width,
        target.len() == dimension(width as int),
        source.len() <= usize::MAX,
        target.len() * source.len() <= usize::MAX,
        t < target.len(),
        u < source.len(),
        u <= 0xffff_ffff_ffff_ffffu64 >> width,
        action.xmask <= 0xffff_ffff_ffff_ffffu64 >> width,
        action.zmask <= 0xffff_ffff_ffff_ffffu64 >> width,
    ensures
        ({
            let merged = tensor(k, target, source);
            let wide = mixes(action, merged.len() as int)[t + u * target.len()];
            let own = mixes(action, target.len() as int)[t as int];
            &&& wide.quarter == own.quarter
            &&& own.other < target.len()
            &&& wide.other == own.other + u * target.len()
            &&& merged[t + u * target.len()] == product_of(k, target[t as int], source[u as int])
            &&& merged[wide.other as int] == product_of(
                k,
                target[own.other as int],
                source[u as int],
            )
        }),
{
    let raised = PauliAction {
        xmask: action.xmask << width,
        zmask: action.zmask << width,
        ..action
    };
    let dim = target.len() as int;
    lemma_width(width);
    law_a_pauli_on_one_factor_leaves_the_other(action, raised, width, t, u);
    law_a_pauli_on_one_factor_leaves_the_other(action, raised, width, t ^ action.xmask, u);
    lemma_product_index(t as int, u as int, dim, source.len() as int);
    let other = (t ^ action.xmask) as int;
    lemma_product_index(other, u as int, dim, source.len() as int);
}

proof fn lemma_widened_joined(low: u64, high: u64, width: u64, bit: u64, mask: u64)
    by (bit_vector)
    requires
        0 < width < 64,
        bit < width,
        low < 1u64 << (width - 1) as u64,
        high <= 0xffff_ffff_ffff_ffffu64 >> width,
        mask == 0xffff_ffff_ffff_ffffu64 << bit,
    ensures
        (((low | (high << (width - 1) as u64)) & mask) << 1u64) | ((low | (high << (width - 1) as u64))
            & !mask) == (((low & mask) << 1u64) | (low & !mask)) | (high << width),
        (((low & mask) << 1u64) | (low & !mask)) < 1u64 << width,
        ((((low & mask) << 1u64) | (low & !mask)) | (1u64 << bit)) < 1u64 << width,
        ((((low & mask) << 1u64) | (low & !mask)) | (high << width)) | (1u64 << bit) == ((((low & mask)
            << 1u64) | (low & !mask)) | (1u64 << bit)) | (high << width),
{
}

/// A projection on a branch of a Pauli of the target reads, at every merged index, what
/// it reads at the target's own index with the source's qubits as they are: the
/// measurement and the merge can change places.
pub proof fn law_a_measurement_of_the_target_commutes_with_a_merge(
    kernel: MeasurementKernel,
    minus: bool,
    width: u64,
    low: u64,
    high: u64,
)
    requires
        0 < width < 64,
        low < 1u64 << (width - 1) as u64,
        high <= 0xffff_ffff_ffff_ffffu64 >> width,
        kernel.action.xmask < 1u64 << width,
        kernel.action.zmask < 1u64 << width,
        kernel.action.xmask <= 0xffff_ffff_ffff_ffffu64 >> width,
        kernel.action.zmask <= 0xffff_ffff_ffff_ffffu64 >> width,
        kernel.is_diagonal ==> kernel.action.zmask != 0,
        !kernel.is_diagonal ==> kernel.action.xmask != 0,
        (high + 1) * dimension(width as int) <= usize::MAX,
    ensures
        ({
            let own = joint_of(kernel, minus, low);
            let wide = joint_of(kernel, minus, joined_state(low, high, (width - 1) as u64));
            &&& own.source < 1u64 << width
            &&& wide.source == joined_state(own.source as u64, high, width)
            &&& match (own.mix, wide.mix) {
                (Some(a), Some(b)) => a.quarter == b.quarter && a.other < 1u64 << width && b.other
                    == joined_state(a.other as u64, high, width),
                (None, None) => true,
                _ => false,
            }
        }),
{
    let action = kernel.action;
    let raised = PauliAction {
        xmask: action.xmask << width,
        zmask: action.zmask << width,
        ..action
    };
    let mask = if kernel.is_diagonal {
        action.zmask
    } else {
        action.xmask
    };
    let p = pivot(mask);
    lemma_pivot(mask, width);
    let cut = 0xffff_ffff_ffff_ffffu64 << p;
    lemma_widened_joined(low, high, width, p, cut);
    let own = widened(low, p);
    let index = joined_state(low, high, (width - 1) as u64);
    assert(widened(index, p) == joined_state(own, high, width));
    lemma_width(width);
    let dim = dimension(width as int);
    let most = high as int;
    assert((most + 1) * dim == most * dim + dim && most * dim >= 0) by (nonlinear_arith)
        requires
            most >= 0,
            dim >= 0,
    ;
    lemma_joined_raw(own, high, width, 0, 0);
    lemma_joined_raw(own | (1u64 << p), high, width, 0, 0);
    if kernel.is_diagonal {
        lemma_joined_raw(own, high, width, 0, action.zmask);
    } else {
        law_a_pauli_on_one_factor_leaves_the_other(action, raised, width, own, high);
        law_a_pauli_on_one_factor_leaves_the_other(
            action,
            raised,
            width,
            own ^ action.xmask,
            high,
        );
    }
}

} // verus!
