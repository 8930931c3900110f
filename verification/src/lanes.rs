//! Lanes: the amplitudes of one shot, within the storage that all shots share.
use vstd::prelude::*;
use crate::amplitudes::{joints, mixes, projection_joints, rotation_mixes, Joint, Mix};
use crate::bits::row_bit;
use crate::executor::{filled_list, lane_index, lemma_lane_index, lemma_lane_unique};
use crate::kernels::{
    branch_view, expectation, lawful, measured, product_of, promoted, rotated, ActiveKernels,
};
use crate::program::{MeasurementKernel, RotationKernel};
use crate::symbols::batch_bit_at;

verus! {

broadcast use crate::bits::group_word_bits;

/// How the lanes of the shots lie in their storage: `stride` amplitudes of room
/// for each of `pitch` shots, one shot after another or one basis state after
/// another.
#[derive(Clone, Copy, Debug, PartialEq, Eq, Structural)]
pub struct LaneLayout {
    pub shot_major: bool,
    pub stride: usize,
    pub pitch: usize,
}

impl LaneLayout {
    pub open spec fn index(&self, shot: int, basis: int) -> int {
        lane_index(self.shot_major, self.stride as int, self.pitch as int, shot, basis)
    }

    /// The storage has the size of the layout.
    pub open spec fn fits<A>(&self, store: Seq<A>) -> bool {
        store.len() == self.stride * self.pitch
    }

    /// The first `dim` amplitudes of a shot.
    pub open spec fn lane<A>(&self, store: Seq<A>, shot: int, dim: int) -> Seq<A> {
        Seq::new(dim as nat, |b: int| store[self.index(shot, b)])
    }

    /// The lanes of the first `shots` shots.
    pub open spec fn lanes<A>(&self, store: Seq<A>, shots: int, dim: int) -> Seq<Seq<A>> {
        Seq::new(shots as nat, |s: int| self.lane(store, s, dim))
    }

    fn at(&self, shot: usize, basis: usize, Ghost(len): Ghost<int>) -> (r: usize)
        requires
            shot < self.pitch,
            basis < self.stride,
            len == self.stride * self.pitch,
            len <= usize::MAX,
        ensures
            r == self.index(shot as int, basis as int),
            r < len,
    {
        proof {
            lemma_lane_index(
                self.shot_major,
                self.stride as int,
                self.pitch as int,
                shot as int,
                basis as int,
            );
        }
        if self.shot_major {
            shot * self.stride + basis
        } else {
            basis * self.pitch + shot
        }
    }
}

/// Reads the lane of a shot.
pub fn read_lane<A: Copy>(store: &Vec<A>, layout: LaneLayout, shot: usize, dim: usize) -> (r: Vec<A>)
    requires
        layout.fits(store@),
        shot < layout.pitch,
        dim <= layout.stride,
    ensures
        r@ == layout.lane(store@, shot as int, dim as int),
{
    let mut lane: Vec<A> = Vec::new();
    let mut basis: usize = 0;
    let len: usize = store.len();
    while basis < dim
        invariant
            basis <= dim,
            len == store@.len(),
            layout.fits(store@),
            shot < layout.pitch,
            dim <= layout.stride,
            lane@.len() == basis,
            forall|b: int| 0 <= b < basis ==> #[trigger] lane@[b] == store@[layout.index(shot as int, b)],
        decreases dim - basis,
    {
        let at: usize = layout.at(shot, basis, Ghost(len as int));
        lane.push(store[at]);
        basis += 1;
    }
    assert(lane@ =~= layout.lane(store@, shot as int, dim as int));
    lane
}

/// Writes the lane of a shot. The other shots keep their lanes.
pub fn write_lane<A: Copy>(store: &mut Vec<A>, layout: LaneLayout, shot: usize, lane: &Vec<A>)
    requires
        layout.fits(old(store)@),
        shot < layout.pitch,
        lane@.len() <= layout.stride,
    ensures
        final(store)@.len() == old(store)@.len(),
        layout.lane(final(store)@, shot as int, lane@.len() as int) == lane@,
        forall|t: int, d: int|
            0 <= t < layout.pitch && t != shot && 0 <= d <= layout.stride ==> #[trigger] layout.lane(
                final(store)@,
                t,
                d,
            ) == layout.lane(old(store)@, t, d),
{
    let ghost start = store@;
    let mut basis: usize = 0;
    let len: usize = store.len();
    let dim: usize = lane.len();
    let ghost st = layout.stride as int;
    let ghost pi = layout.pitch as int;
    while basis < dim
        invariant
            basis <= dim,
            dim == lane@.len(),
            len == store@.len(),
            len == start.len(),
            layout.fits(store@),
            shot < layout.pitch,
            dim <= layout.stride,
            st == layout.stride,
            pi == layout.pitch,
            forall|b: int|
                0 <= b < basis ==> #[trigger] store@[layout.index(shot as int, b)] == lane@[b],
            forall|t: int, b: int|
                0 <= t < pi && t != shot && 0 <= b < st ==> #[trigger] store@[layout.index(t, b)]
                    == start[layout.index(t, b)],
        decreases dim - basis,
    {
        let at: usize = layout.at(shot, basis, Ghost(len as int));
        let ghost before = store@;
        store.set(at, lane[basis]);
        proof {
            assert forall|b: int| 0 <= b < basis + 1 implies #[trigger] store@[layout.index(
                shot as int,
                b,
            )] == lane@[b] by {
                lemma_lane_index(layout.shot_major, st, pi, shot as int, b);
                if b < basis {
                    if layout.index(shot as int, b) == at {
                        lemma_lane_unique(
                            layout.shot_major,
                            st,
                            pi,
                            shot as int,
                            b,
                            shot as int,
                            basis as int,
                        );
                    }
                    assert(before[layout.index(shot as int, b)] == lane@[b]);
                }
            }
            assert forall|t: int, b: int| 0 <= t < pi && t != shot && 0 <= b < st implies
                #[trigger] store@[layout.index(t, b)] == start[layout.index(t, b)] by {
                lemma_lane_index(layout.shot_major, st, pi, t, b);
                if layout.index(t, b) == at {
                    lemma_lane_unique(layout.shot_major, st, pi, t, b, shot as int, basis as int);
                }
                assert(before[layout.index(t, b)] == start[layout.index(t, b)]);
            }
        }
        basis += 1;
    }
    assert(layout.lane(store@, shot as int, dim as int) =~= lane@);
    assert forall|t: int, d: int| 0 <= t < layout.pitch && t != shot && 0 <= d <= layout.stride implies
        #[trigger] layout.lane(store@, t, d) == layout.lane(start, t, d) by {
        assert(layout.lane(store@, t, d) =~= layout.lane(start, t, d));
    }
}

/// Whether a shot is marked dead.
pub open spec fn is_dead(dead: Option<Seq<u64>>, shot: int) -> bool {
    match dead {
        Some(bits) => row_bit(bits, shot),
        None => false,
    }
}

pub open spec fn dead_view(dead: Option<&[u64]>) -> Option<Seq<u64>> {
    match dead {
        Some(bits) => Some(bits@),
        None => None,
    }
}

/// Whether a shot is marked dead.
pub fn shot_is_dead(dead: Option<&[u64]>, shot: usize) -> (r: bool)
    ensures
        r == is_dead(dead_view(dead), shot as int),
{
    match dead {
        Some(bits) => batch_bit_at(bits, shot),
        None => false,
    }
}

/// Rotates the lane of every shot that is not dead.
pub fn rotate_lanes<A: Copy, K: ActiveKernels<A>>(
    k: &K,
    store: &mut Vec<A>,
    layout: LaneLayout,
    shots: usize,
    dim: usize,
    kernel: RotationKernel,
    sign_bits: &[u64],
    dead: Option<&[u64]>,
)
    requires
        lawful::<A, K>(k),
        layout.fits(old(store)@),
        shots <= layout.pitch,
        dim <= layout.stride,
    ensures
        final(store)@.len() == old(store)@.len(),
        forall|s: int|
            0 <= s < shots && !is_dead(dead_view(dead), s) ==> {
                &&& (#[trigger] layout.lane(final(store)@, s, dim as int)) == rotated(
                    k,
                    kernel,
                    row_bit(sign_bits@, s),
                    layout.lane(old(store)@, s, dim as int),
                )
            },
{
    let ghost start = store@;
    let mixed: Vec<Mix> = rotation_mixes(kernel.action, dim);
    let mut shot: usize = 0;
    while shot < shots
        invariant
            shot <= shots,
            mixed@ == mixes(kernel.action, dim as int),
            lawful::<A, K>(k),
            layout.fits(store@),
            store@.len() == start.len(),
            shots <= layout.pitch,
            dim <= layout.stride,
            forall|s: int|
                shot <= s < shots ==> #[trigger] layout.lane(store@, s, dim as int) == layout.lane(
                    start,
                    s,
                    dim as int,
                ),
            forall|s: int|
                0 <= s < shot && !is_dead(dead_view(dead), s) ==> #[trigger] layout.lane(
                    store@,
                    s,
                    dim as int,
                ) == rotated(k, kernel, row_bit(sign_bits@, s), layout.lane(start, s, dim as int)),
        decreases shots - shot,
    {
        if !shot_is_dead(dead, shot) {
            let lane: Vec<A> = read_lane(store, layout, shot, dim);
            let sign: bool = batch_bit_at(sign_bits, shot);
            let turned: Vec<A> = k.rotate(kernel.kernel_angle, sign, &mixed, lane);
            write_lane(store, layout, shot, &turned);
        }
        shot += 1;
    }
}

/// Promotes the lane of every shot that is not dead.
pub fn promote_lanes<A: Copy, K: ActiveKernels<A>>(
    k: &K,
    store: &mut Vec<A>,
    layout: LaneLayout,
    shots: usize,
    dim: usize,
    kernel_angle: u64,
    sign_bits: &[u64],
    dead: Option<&[u64]>,
)
    requires
        lawful::<A, K>(k),
        layout.fits(old(store)@),
        shots <= layout.pitch,
        2 * dim <= layout.stride,
    ensures
        final(store)@.len() == old(store)@.len(),
        forall|s: int|
            0 <= s < shots && !is_dead(dead_view(dead), s) ==> {
                &&& (#[trigger] layout.lane(final(store)@, s, 2 * dim as int)) == promoted(
                    k,
                    kernel_angle,
                    row_bit(sign_bits@, s),
                    layout.lane(old(store)@, s, dim as int),
                )
            },
{
    let ghost start = store@;
    let ghost twice = 2 * dim as int;
    let mut shot: usize = 0;
    while shot < shots
        invariant
            shot <= shots,
            lawful::<A, K>(k),
            layout.fits(store@),
            store@.len() == start.len(),
            shots <= layout.pitch,
            twice == 2 * dim,
            twice <= layout.stride,
            forall|s: int|
                shot <= s < shots ==> #[trigger] layout.lane(store@, s, dim as int) == layout.lane(
                    start,
                    s,
                    dim as int,
                ),
            forall|s: int|
                0 <= s < shot && !is_dead(dead_view(dead), s) ==> #[trigger] layout.lane(
                    store@,
                    s,
                    twice,
                ) == promoted(
                    k,
                    kernel_angle,
                    row_bit(sign_bits@, s),
                    layout.lane(start, s, dim as int),
                ),
        decreases shots - shot,
    {
        if !shot_is_dead(dead, shot) {
            let lane: Vec<A> = read_lane(store, layout, shot, dim);
            let sign: bool = batch_bit_at(sign_bits, shot);
            let wide: Vec<A> = k.promote(kernel_angle, sign, lane);
            write_lane(store, layout, shot, &wide);
        }
        shot += 1;
    }
}

/// Measuring the first `n` lanes in turn: the generator state afterwards, the
/// branches and the projected lanes, unless an impossible branch came up.
pub open spec fn measured_lanes<A, K: ActiveKernels<A>>(
    k: &K,
    kernel: MeasurementKernel,
    lanes: Seq<Seq<A>>,
    rng: u64,
    n: int,
) -> Option<(u64, Seq<bool>, Seq<Seq<A>>)>
    decreases n,
{
    if n <= 0 {
        Some((rng, Seq::empty(), Seq::empty()))
    } else {
        match measured_lanes(k, kernel, lanes, rng, n - 1) {
            None => None,
            Some((state, branches, outs)) => {
                let (next, drawn) = measured(k, kernel, lanes[n - 1], state);
                match drawn {
                    None => None,
                    Some((branch, lane)) => Some((next, branches.push(branch), outs.push(lane))),
                }
            },
        }
    }
}

pub proof fn lemma_measured_lanes<A, K: ActiveKernels<A>>(
    k: &K,
    kernel: MeasurementKernel,
    lanes: Seq<Seq<A>>,
    rng: u64,
    n: int,
)
    requires
        0 <= n,
    ensures
        match measured_lanes(k, kernel, lanes, rng, n) {
            Some((_, branches, outs)) => branches.len() == n && outs.len() == n,
            None => true,
        },
    decreases n,
{
    if n > 0 {
        lemma_measured_lanes(k, kernel, lanes, rng, n - 1);
    }
}

/// A failed measurement stays failed.
proof fn lemma_measured_stuck<A, K: ActiveKernels<A>>(
    k: &K,
    kernel: MeasurementKernel,
    lanes: Seq<Seq<A>>,
    rng: u64,
    m: int,
    n: int,
)
    requires
        m <= n,
        measured_lanes(k, kernel, lanes, rng, m) is None,
    ensures
        measured_lanes(k, kernel, lanes, rng, n) is None,
    decreases n - m,
{
    if m < n {
        lemma_measured_stuck(k, kernel, lanes, rng, m, n - 1);
    }
}

/// The measured branches of a batch.
pub struct Branches {
    pub rng: u64,
    pub bits: Vec<u64>,
}

/// Sets one bit of a row.
fn set_row_bit(bits: &mut Vec<u64>, shot: usize, value: bool)
    requires
        shot < 64 * old(bits)@.len(),
        !row_bit(old(bits)@, shot as int),
    ensures
        final(bits)@.len() == old(bits)@.len(),
        forall|i: int|
            0 <= i < 64 * final(bits)@.len() ==> #[trigger] row_bit(final(bits)@, i) == if i == shot {
                value
            } else {
                row_bit(old(bits)@, i)
            },
{
    if value {
        let word: usize = shot / 64;
        let offset: u64 = (shot % 64) as u64;
        let ghost before = bits@;
        let joined: u64 = bits[word] | (1u64 << offset);
        bits.set(word, joined);
        proof {
            assert forall|i: int| 0 <= i < 64 * bits@.len() implies #[trigger] row_bit(bits@, i) == if i
                == shot {
                value
            } else {
                row_bit(before, i)
            } by {
                crate::bits::lemma_row_bit_update(before, word as int, joined, i);
                if i / 64 == word && i != shot {
                    assert(i % 64 != offset);
                }
            }
        }
    }
}

/// Measures every shot in ascending order. Nothing comes back where an impossible
/// branch was drawn.
pub fn measure_lanes<A: Copy, K: ActiveKernels<A>>(
    k: &K,
    store: &mut Vec<A>,
    layout: LaneLayout,
    shots: usize,
    dim: usize,
    kernel: MeasurementKernel,
    rng: u64,
    words: usize,
) -> (r: Option<Branches>)
    requires
        lawful::<A, K>(k),
        layout.fits(old(store)@),
        shots <= layout.pitch,
        dim <= layout.stride,
        shots <= 64 * words,
        dim % 2 == 0,
    ensures
        final(store)@.len() == old(store)@.len(),
        match r {
            Some(branches) => {
                &&& measured_lanes(
                    k,
                    kernel,
                    layout.lanes(old(store)@, shots as int, dim as int),
                    rng,
                    shots as int,
                ) == Some(
                    (
                        branches.rng,
                        Seq::new(shots as nat, |s: int| row_bit(branches.bits@, s)),
                        layout.lanes(final(store)@, shots as int, dim as int / 2),
                    ),
                )
                &&& branches.bits@.len() == words
                &&& forall|i: int|
                    shots <= i < 64 * words ==> !#[trigger] row_bit(branches.bits@, i)
            },
            None => measured_lanes(
                k,
                kernel,
                layout.lanes(old(store)@, shots as int, dim as int),
                rng,
                shots as int,
            ) is None,
        },
{
    let ghost start = store@;
    let ghost lanes = layout.lanes(start, shots as int, dim as int);
    let ghost half = dim as int / 2;
    let mut state: u64 = rng;
    let plus: Vec<Joint> = projection_joints(kernel, false, dim / 2);
    let minus: Vec<Joint> = projection_joints(kernel, true, dim / 2);
    let mut bits: Vec<u64> = filled_list(words, 0u64);
    let mut shot: usize = 0;
    proof {
        assert forall|i: int| 0 <= i < 64 * words implies !#[trigger] row_bit(bits@, i) by {
            crate::executor::lemma_clear_row(bits@, i);
        }
        assert(Seq::new(0, |s: int| row_bit(bits@, s)) =~= Seq::<bool>::empty());
        assert(layout.lanes(store@, 0, half) =~= Seq::<Seq<A>>::empty());
    }
    while shot < shots
        invariant
            shot <= shots,
            plus@ == joints(kernel, false, half),
            minus@ == joints(kernel, true, half),
            lawful::<A, K>(k),
            layout.fits(store@),
            store@.len() == start.len(),
            shots <= layout.pitch,
            dim <= layout.stride,
            half == dim as int / 2,
            dim % 2 == 0,
            shots <= 64 * words,
            bits@.len() == words,
            lanes == layout.lanes(start, shots as int, dim as int),
            start == old(store)@,
            forall|s: int|
                shot <= s < shots ==> #[trigger] layout.lane(store@, s, dim as int) == layout.lane(
                    start,
                    s,
                    dim as int,
                ),
            forall|i: int| shot <= i < 64 * words ==> !#[trigger] row_bit(bits@, i),
            measured_lanes(k, kernel, lanes, rng, shot as int) == Some(
                (
                    state,
                    Seq::new(shot as nat, |s: int| row_bit(bits@, s)),
                    layout.lanes(store@, shot as int, half),
                ),
            ),
        decreases shots - shot,
    {
        let lane: Vec<A> = read_lane(store, layout, shot, dim);
        let ghost entry = layout.lane(store@, shot as int, dim as int);
        let ghost old_bits = bits@;
        let ghost old_store = store@;
        assert(lanes[shot as int] == entry);
        let (next, drawn) = k.measure(&plus, &minus, lane, state);
        let ghost at = shot as int;
        let ghost told = measured(k, kernel, lanes[at], state);
        assert(told == (next, branch_view(drawn)));
        match drawn {
            None => {
                proof {
                    assert(measured_lanes(k, kernel, lanes, rng, at + 1) is None);
                    lemma_measured_stuck(k, kernel, lanes, rng, at + 1, shots as int);
                }
                return None;
            },
            Some((branch, projected)) => {
                write_lane(store, layout, shot, &projected);
                set_row_bit(&mut bits, shot, branch);
                state = next;
                proof {
                    assert(projected@.len() == half);
                    assert(Seq::new((at + 1) as nat, |s: int| row_bit(bits@, s)) =~= Seq::new(
                        at as nat,
                        |s: int| row_bit(old_bits, s),
                    ).push(branch));
                    assert forall|s: int| 0 <= s < at implies #[trigger] layout.lane(store@, s, half)
                        == layout.lane(old_store, s, half) by {}
                    assert(layout.lanes(store@, at + 1, half) =~= layout.lanes(old_store, at, half).push(
                        projected@,
                    ));
                }
            },
        }
        shot += 1;
    }
    Some(Branches { rng: state, bits })
}

/// The expectation of every shot, in order.
pub fn expect_lanes<A: Copy, K: ActiveKernels<A>>(
    k: &K,
    store: &Vec<A>,
    layout: LaneLayout,
    shots: usize,
    dim: usize,
    kernel: MeasurementKernel,
    outcome_bits: &[u64],
) -> (r: Vec<u64>)
    requires
        lawful::<A, K>(k),
        layout.fits(store@),
        shots <= layout.pitch,
        dim <= layout.stride,
    ensures
        r@ == Seq::new(
            shots as nat,
            |s: int|
                expectation(
                    k,
                    kernel,
                    row_bit(outcome_bits@, s),
                    layout.lane(store@, s, dim as int),
                ),
        ),
{
    let mut out: Vec<u64> = Vec::new();
    let minus: Vec<Joint> = projection_joints(kernel, true, dim / 2);
    let mut shot: usize = 0;
    while shot < shots
        invariant
            shot <= shots,
            minus@ == joints(kernel, true, dim as int / 2),
            lawful::<A, K>(k),
            layout.fits(store@),
            shots <= layout.pitch,
            dim <= layout.stride,
            out@.len() == shot,
            forall|s: int|
                0 <= s < shot ==> #[trigger] out@[s] == expectation(
                    k,
                    kernel,
                    row_bit(outcome_bits@, s),
                    layout.lane(store@, s, dim as int),
                ),
        decreases shots - shot,
    {
        let lane: Vec<A> = read_lane(store, layout, shot, dim);
        let outcome: bool = batch_bit_at(outcome_bits, shot);
        let value: u64 = k.expect(&minus, outcome, lane);
        out.push(value);
        shot += 1;
    }
    out
}

/// The product state of two lanes: the basis states of `source` are the high part.
pub open spec fn tensor<A, K: ActiveKernels<A>>(k: &K, target: Seq<A>, source: Seq<A>) -> Seq<A> {
    Seq::new(
        (target.len() * source.len()) as nat,
        |i: int| product_of(k, target[i % target.len() as int], source[i / target.len() as int]),
    )
}

proof fn lemma_tensor_index(high: int, low: int, dim: int)
    requires
        0 <= low < dim,
        0 <= high,
    ensures
        (high * dim + low) / dim == high,
        (high * dim + low) % dim == low,
{
    vstd::arithmetic::div_mod::lemma_fundamental_div_mod_converse(high * dim + low, dim, high, low);
}

/// The product of the lanes of one shot.
fn tensor_lane<A: Copy, K: ActiveKernels<A>>(k: &K, target: &Vec<A>, source: &Vec<A>) -> (r: Vec<A>)
    requires
        lawful::<A, K>(k),
        target@.len() * source@.len() <= usize::MAX,
    ensures
        r@ == tensor(k, target@, source@),
{
    let mut out: Vec<A> = Vec::new();
    let ghost dim = target@.len() as int;
    let mut high: usize = 0;
    assert(0 * dim == 0);
    while high < source.len()
        invariant
            high <= source@.len(),
            lawful::<A, K>(k),
            dim == target@.len(),
            out@.len() == high * dim,
            forall|i: int|
                0 <= i < out@.len() ==> #[trigger] out@[i] == product_of(
                    k,
                    target@[i % dim],
                    source@[i / dim],
                ),
        decreases source@.len() - high,
    {
        let mut low: usize = 0;
        while low < target.len()
            invariant
                low <= target@.len(),
                high < source@.len(),
                lawful::<A, K>(k),
                dim == target@.len(),
                out@.len() == high * dim + low,
                forall|i: int|
                    0 <= i < out@.len() ==> #[trigger] out@[i] == product_of(
                        k,
                        target@[i % dim],
                        source@[i / dim],
                    ),
            decreases target@.len() - low,
        {
            let value: A = k.product(target[low], source[high]);
            proof {
                lemma_tensor_index(high as int, low as int, dim);
                assert(0 <= high * dim) by (nonlinear_arith)
                    requires
                        0 <= high,
                        0 <= dim,
                ;
            }
            out.push(value);
            low += 1;
        }
        assert(high * dim + dim == (high + 1) * dim) by (nonlinear_arith);
        high += 1;
    }
    assert(out@.len() == target@.len() * source@.len()) by (nonlinear_arith)
        requires
            out@.len() == high * dim,
            high == source@.len(),
            dim == target@.len(),
    ;
    assert(out@ =~= tensor(k, target@, source@));
    out
}

/// Merges the lanes of `source` into those of `target`.
pub fn tensor_lanes<A: Copy, K: ActiveKernels<A>>(
    k: &K,
    target: &mut Vec<A>,
    target_layout: LaneLayout,
    target_dim: usize,
    source: &Vec<A>,
    source_layout: LaneLayout,
    source_dim: usize,
    shots: usize,
)
    requires
        lawful::<A, K>(k),
        target_layout.fits(old(target)@),
        source_layout.fits(source@),
        shots <= target_layout.pitch,
        shots <= source_layout.pitch,
        source_dim <= source_layout.stride,
        target_dim <= target_layout.stride,
        target_dim * source_dim <= target_layout.stride,
    ensures
        final(target)@.len() == old(target)@.len(),
        forall|s: int|
            0 <= s < shots ==> {
                &&& (#[trigger] target_layout.lane(
                    final(target)@,
                    s,
                    target_dim as int * source_dim as int,
                )) == tensor(
                    k,
                    target_layout.lane(old(target)@, s, target_dim as int),
                    source_layout.lane(source@, s, source_dim as int),
                )
            },
{
    let ghost start = target@;
    let ghost merged = target_dim as int * source_dim as int;
    let mut shot: usize = 0;
    while shot < shots
        invariant
            shot <= shots,
            lawful::<A, K>(k),
            target_layout.fits(target@),
            target@.len() == start.len(),
            source_layout.fits(source@),
            shots <= target_layout.pitch,
            shots <= source_layout.pitch,
            source_dim <= source_layout.stride,
            target_dim <= target_layout.stride,
            merged == target_dim as int * source_dim as int,
            0 <= merged <= target_layout.stride,
            forall|s: int|
                shot <= s < shots ==> #[trigger] target_layout.lane(target@, s, target_dim as int)
                    == target_layout.lane(start, s, target_dim as int),
            forall|s: int|
                0 <= s < shot ==> #[trigger] target_layout.lane(target@, s, merged) == tensor(
                    k,
                    target_layout.lane(start, s, target_dim as int),
                    source_layout.lane(source@, s, source_dim as int),
                ),
        decreases shots - shot,
    {
        let low: Vec<A> = read_lane(target, target_layout, shot, target_dim);
        let high: Vec<A> = read_lane(source, source_layout, shot, source_dim);
        let lane: Vec<A> = tensor_lane(k, &low, &high);
        write_lane(target, target_layout, shot, &lane);
        shot += 1;
    }
}

/// Moves the lanes of the listed shots, in ascending order, to the front.
pub fn compact_lanes<A: Copy>(
    store: &mut Vec<A>,
    layout: LaneLayout,
    dim: usize,
    sources: &Vec<usize>,
)
    requires
        layout.fits(old(store)@),
        dim <= layout.stride,
        sources@.len() <= layout.pitch,
        forall|j: int| 0 <= j < sources@.len() ==> j <= #[trigger] sources@[j] < layout.pitch,
        forall|i: int, j: int| 0 <= i < j < sources@.len() ==> sources@[i] < sources@[j],
    ensures
        final(store)@.len() == old(store)@.len(),
        forall|j: int|
            0 <= j < sources@.len() ==> #[trigger] layout.lane(final(store)@, j, dim as int)
                == layout.lane(old(store)@, sources@[j] as int, dim as int),
{
    let ghost start = store@;
    let mut j: usize = 0;
    while j < sources.len()
        invariant
            j <= sources@.len(),
            layout.fits(store@),
            store@.len() == start.len(),
            dim <= layout.stride,
            sources@.len() <= layout.pitch,
            forall|j: int| 0 <= j < sources@.len() ==> j <= #[trigger] sources@[j] < layout.pitch,
            forall|i: int, j: int| 0 <= i < j < sources@.len() ==> sources@[i] < sources@[j],
            forall|t: int|
                j <= t < layout.pitch ==> #[trigger] layout.lane(store@, t, dim as int)
                    == layout.lane(start, t, dim as int),
            forall|i: int|
                0 <= i < j ==> #[trigger] layout.lane(store@, i, dim as int) == layout.lane(
                    start,
                    sources@[i] as int,
                    dim as int,
                ),
        decreases sources@.len() - j,
    {
        let src: usize = sources[j];
        if src != j {
            let lane: Vec<A> = read_lane(store, layout, src, dim);
            write_lane(store, layout, j, &lane);
        }
        j += 1;
    }
}

} // verus!
