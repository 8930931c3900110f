//! The active state of a batch, as a whole or split into tensor factors: rotations,
//! promotions, measurements and merges of its parts.
use vstd::prelude::*;
use crate::bits::{row_bit, row_bits};
use crate::errors::{Result, TicitError};
use crate::executor::{
    active_length, component_wf, dimension, lemma_dimension_grows, lemma_dimension_positive,
    lemma_dimension_sum, BatchFactoredExecutorState,
};
use crate::kernels::{expectation, lawful, one_of, promoted, rotated, ActiveKernels};
use crate::lanes::{
    dead_view, expect_lanes, is_dead, measure_lanes, promote_lanes, rotate_lanes, tensor,
    tensor_lanes, write_lane, Branches, LaneLayout,
};
use crate::model::{
    expect_part, lemma_widths_bound, lemma_widths_two, lemma_widths_update, measure, merge,
    merge_from, merge_one, part_lanes, promote, promote_part, rotate, width, widths, with_lanes,
    write_exp, Block, Part,
};
use crate::program::{MeasurementKernel, RotationKernel};
use crate::refine::{lemma_block_exps, lemma_block_lanes, same_planes};
use crate::symbols::batch_bit_at;

verus! {

/// Only part `j` of the active state differs.
pub open spec fn only_part<A: Copy>(
    before: &BatchFactoredExecutorState<A>,
    after: &BatchFactoredExecutorState<A>,
    j: int,
) -> bool {
    &&& same_planes(before, after)
    &&& after.same_frame(before)
    &&& after.part_count() == before.part_count()
    &&& forall|i: int|
        0 <= i < before.part_count() && i != j ==> #[trigger] after.part(i) == before.part(i)
    &&& forall|s: int, i: int|
        0 <= s < before.active_shots && 0 <= i < before.part_count() && i != j
            ==> #[trigger] after.lane(s, i) == before.lane(s, i)
}

proof fn lemma_part_room<A: Copy>(runtime: &BatchFactoredExecutorState<A>, j: int)
    requires
        runtime.ready(),
        0 <= j < runtime.part_count(),
    ensures
        runtime.layout(j).fits(runtime.store(j)),
        runtime.active_shots <= runtime.active_pitch,
        runtime.part(j).active ==> dimension(runtime.part(j).k) <= runtime.layout(j).stride,
        runtime.layout(j).stride == runtime.part(j).stride,
{
    if runtime.active_components_enabled {
        assert(component_wf(runtime.active_components@[j], runtime.active_pitch as int));
    }
}

/// The layout of a part.
fn layout_of<A: Copy>(runtime: &BatchFactoredExecutorState<A>, j: usize) -> (r: LaneLayout)
    requires
        j < runtime.part_count(),
    ensures
        r == runtime.layout(j as int),
{
    LaneLayout {
        shot_major: runtime.dense_shot_major_active,
        stride: if runtime.active_components_enabled {
            runtime.active_components[j].stride
        } else {
            runtime.active_stride
        },
        pitch: runtime.active_pitch,
    }
}

/// The width of a part.
fn part_width<A: Copy>(runtime: &BatchFactoredExecutorState<A>, j: usize) -> (r: usize)
    requires
        j < runtime.part_count(),
    ensures
        r == runtime.part(j as int).k,
{
    if runtime.active_components_enabled {
        runtime.active_components[j].k
    } else {
        runtime.k
    }
}

/// The dimension of a part that is switched on.
fn part_dimension<A: Copy>(runtime: &BatchFactoredExecutorState<A>, j: usize) -> (r: usize)
    requires
        runtime.ready(),
        j < runtime.part_count(),
        runtime.part(j as int).active,
    ensures
        r == dimension(runtime.part(j as int).k),
        r <= runtime.layout(j as int).stride,
{
    proof {
        lemma_part_room(runtime, j as int);
    }
    match active_length(part_width(runtime, j)) {
        Ok(dim) => dim,
        Err(_) => {
            assert(false);
            0
        },
    }
}

/// Rotates a part of every shot that is not dead.
pub fn rotate_part_lanes<A: Copy, K: ActiveKernels<A>>(
    k: &K,
    runtime: &mut BatchFactoredExecutorState<A>,
    j: usize,
    kernel: RotationKernel,
    sign_bits: &[u64],
    dead: Option<&[u64]>,
) -> (r: Result<()>)
    requires
        lawful::<A, K>(k),
        old(runtime).ready(),
        j < old(runtime).part_count(),
        old(runtime).part(j as int).active,
    ensures
        match r {
            Ok(_) => {
                &&& kernel.action.nqubits == old(runtime).part(j as int).k
                &&& final(runtime).ready()
                &&& only_part(old(runtime), final(runtime), j as int)
                &&& final(runtime).part(j as int) == old(runtime).part(j as int)
                &&& final(runtime).k == old(runtime).k
                &&& final(runtime).ndormant == old(runtime).ndormant
                &&& final(runtime).rng_state == old(runtime).rng_state
                &&& forall|s: int|
                    0 <= s < old(runtime).active_shots && !is_dead(dead_view(dead), s) ==> (
                    #[trigger] final(runtime).lane(s, j as int)) == rotated(
                        k,
                        kernel,
                        row_bit(sign_bits@, s),
                        old(runtime).lane(s, j as int),
                    )
            },
            Err(e) => {
                &&& kernel.action.nqubits != old(runtime).part(j as int).k
                &&& *final(runtime) == *old(runtime)
                &&& e@ == "rotation kernel dimension does not match batch active state"@
            },
        },
{
    if kernel.action.nqubits != part_width(runtime, j) {
        return Err(TicitError::new("rotation kernel dimension does not match batch active state"));
    }
    proof {
        lemma_part_room(runtime, j as int);
    }
    let dim: usize = part_dimension(runtime, j);
    let layout: LaneLayout = layout_of(runtime, j);
    let shots: usize = runtime.active_shots;
    if runtime.active_components_enabled {
        rotate_lanes(
            k,
            &mut runtime.active_components[j].amplitudes,
            layout,
            shots,
            dim,
            kernel,
            sign_bits,
            dead,
        );
    } else {
        rotate_lanes(k, &mut runtime.active, layout, shots, dim, kernel, sign_bits, dead);
    }
    proof {
        lemma_only_part(old(runtime), runtime, j as int);
        assert(runtime.parts() =~= old(runtime).parts());
    }
    Ok(())
}

/// Where the storage of one part alone changed, the other parts have their lanes.
proof fn lemma_only_part<A: Copy>(
    before: &BatchFactoredExecutorState<A>,
    after: &BatchFactoredExecutorState<A>,
    j: int,
)
    requires
        before.planes_wf(),
        0 <= j < before.part_count(),
        same_planes(before, after),
        after.same_frame(before),
        before.active_components_enabled ==> {
            &&& after.active_components@.len() == before.active_components@.len()
            &&& forall|i: int|
                0 <= i < before.active_components@.len() && i != j
                    ==> #[trigger] after.active_components@[i] == before.active_components@[i]
        },
    ensures
        only_part(before, after, j),
        after.planes_wf(),
{
    assert forall|c: i32| #[trigger] after.assigned(c) && c > 0 implies c <= after.nsymbols by {
        assert(before.assigned(c));
    }
    assert forall|i: int| 0 <= i < before.part_count() && i != j implies #[trigger] after.part(i)
        == before.part(i) by {
        if before.active_components_enabled {
            assert(after.active_components@[i] == before.active_components@[i]);
        }
    }
    assert forall|s: int, i: int|
        0 <= s < before.active_shots && 0 <= i < before.part_count() && i != j implies
        #[trigger] after.lane(s, i) == before.lane(s, i) by {
        if before.active_components_enabled {
            assert(after.active_components@[i] == before.active_components@[i]);
        }
    }
}

/// Rotates a part of every shot.
pub fn rotate_pauli_batch<A: Copy, K: ActiveKernels<A>>(
    k: &K,
    runtime: &mut BatchFactoredExecutorState<A>,
    j: usize,
    kernel: RotationKernel,
    sign_bits: &[u64],
) -> (r: Result<()>)
    requires
        lawful::<A, K>(k),
        old(runtime).ready(),
        j < old(runtime).part_count(),
        old(runtime).part(j as int).active,
    ensures
        final(runtime).same_frame(old(runtime)),
        final(runtime).active_shots == old(runtime).active_shots,
        match r {
            Ok(_) => final(runtime).ready() && forall|first: int|
                rotate(
                    k,
                    #[trigger] old(runtime).block(first),
                    j as int,
                    kernel,
                    row_bits(sign_bits@, old(runtime).active_shots as int),
                ) == Ok::<Block<A>, Seq<char>>(final(runtime).block(first)),
            Err(e) => forall|first: int|
                rotate(
                    k,
                    #[trigger] old(runtime).block(first),
                    j as int,
                    kernel,
                    row_bits(sign_bits@, old(runtime).active_shots as int),
                ) == Err::<Block<A>, Seq<char>>(e@),
        },
{
    match rotate_part_lanes(k, runtime, j, kernel, sign_bits, None) {
        Err(e) => Err(e),
        Ok(_) => {
            proof {
                let bits = row_bits(sign_bits@, old(runtime).active_shots as int);
                assert forall|first: int|
                    rotate(k, #[trigger] old(runtime).block(first), j as int, kernel, bits) == Ok::<
                        Block<A>,
                        Seq<char>,
                    >(runtime.block(first)) by {
                    let b = old(runtime).block(first);
                    let lanes = Seq::new(
                        b.shots.len(),
                        |s: int| rotated(k, kernel, bits[s], b.shots[s].lanes[j as int]),
                    );
                    lemma_block_lanes(old(runtime), runtime, j as int, lanes, first);
                }
            }
            Ok(())
        },
    }
}

/// Takes a dormant qubit into the whole active state of every shot that is not
/// dead.
pub fn promote_whole_lanes<A: Copy, K: ActiveKernels<A>>(
    k: &K,
    runtime: &mut BatchFactoredExecutorState<A>,
    kernel_angle: u64,
    sign_bits: &[u64],
    dead: Option<&[u64]>,
) -> (r: Result<()>)
    requires
        lawful::<A, K>(k),
        old(runtime).ready(),
        !old(runtime).active_components_enabled,
    ensures
        match r {
            Ok(_) => {
                &&& old(runtime).ndormant > 0
                &&& old(runtime).active_stride >= 2 * dimension(old(runtime).k as int)
                &&& final(runtime).ready()
                &&& only_part(old(runtime), final(runtime), 0)
                &&& final(runtime).active_stride == old(runtime).active_stride
                &&& final(runtime).k == old(runtime).k + 1
                &&& final(runtime).ndormant == old(runtime).ndormant - 1
                &&& final(runtime).rng_state == old(runtime).rng_state
                &&& forall|s: int|
                    0 <= s < old(runtime).active_shots && !is_dead(dead_view(dead), s) ==> (
                    #[trigger] final(runtime).lane(s, 0)) == promoted(
                        k,
                        kernel_angle,
                        row_bit(sign_bits@, s),
                        old(runtime).lane(s, 0),
                    )
            },
            Err(e) => {
                &&& *final(runtime) == *old(runtime)
                &&& if old(runtime).ndormant == 0 {
                    e@ == "cannot promote a dormant qubit when none remain"@
                } else {
                    &&& old(runtime).active_stride < 2 * dimension(old(runtime).k as int)
                    &&& if old(runtime).dense_shot_major_active {
                        e@ == "batch active shot-major stride is too short for dormant promotion"@
                    } else {
                        e@ == "batch active storage has too few columns for dormant promotion"@
                    }
                }
            },
        },
{
    if runtime.ndormant == 0 {
        return Err(TicitError::new("cannot promote a dormant qubit when none remain"));
    }
    proof {
        lemma_part_room(runtime, 0);
    }
    let dim: usize = part_dimension(runtime, 0);
    if dim > runtime.active_stride / 2 {
        return if runtime.dense_shot_major_active {
            Err(
                TicitError::new(
                    "batch active shot-major stride is too short for dormant promotion",
                ),
            )
        } else {
            Err(TicitError::new("batch active storage has too few columns for dormant promotion"))
        };
    }
    let layout: LaneLayout = layout_of(runtime, 0);
    let shots: usize = runtime.active_shots;
    promote_lanes(k, &mut runtime.active, layout, shots, dim, kernel_angle, sign_bits, dead);
    runtime.k += 1;
    runtime.ndormant -= 1;
    proof {
        lemma_only_part(old(runtime), runtime, 0);
        let wide = dimension(runtime.k as int);
        assert(wide == 2 * dim);
        assert forall|s: int|
            0 <= s < old(runtime).active_shots && !is_dead(dead_view(dead), s) implies (
        #[trigger] runtime.lane(s, 0)) == promoted(
            k,
            kernel_angle,
            row_bit(sign_bits@, s),
            old(runtime).lane(s, 0),
        ) by {
            assert(runtime.lane(s, 0) == layout.lane(runtime.active@, s, 2 * dim as int));
        }
    }
    Ok(())
}

/// Takes a dormant qubit into the whole active state.
pub fn promote_first_dormant_rotation_batch<A: Copy, K: ActiveKernels<A>>(
    k: &K,
    runtime: &mut BatchFactoredExecutorState<A>,
    kernel_angle: u64,
    sign_bits: &[u64],
) -> (r: Result<()>)
    requires
        lawful::<A, K>(k),
        old(runtime).ready(),
        !old(runtime).active_components_enabled,
    ensures
        final(runtime).same_frame(old(runtime)),
        final(runtime).active_shots == old(runtime).active_shots,
        match r {
            Ok(_) => final(runtime).ready() && forall|first: int|
                promote(
                    k,
                    #[trigger] old(runtime).block(first),
                    kernel_angle,
                    row_bits(sign_bits@, old(runtime).active_shots as int),
                ) == Ok::<Block<A>, Seq<char>>(final(runtime).block(first)),
            Err(e) => forall|first: int|
                promote(
                    k,
                    #[trigger] old(runtime).block(first),
                    kernel_angle,
                    row_bits(sign_bits@, old(runtime).active_shots as int),
                ) == Err::<Block<A>, Seq<char>>(e@),
        },
{
    match promote_whole_lanes(k, runtime, kernel_angle, sign_bits, None) {
        Err(e) => Err(e),
        Ok(_) => {
            proof {
                let bits = row_bits(sign_bits@, old(runtime).active_shots as int);
                assert forall|first: int|
                    promote(k, #[trigger] old(runtime).block(first), kernel_angle, bits) == Ok::<
                        Block<A>,
                        Seq<char>,
                    >(runtime.block(first)) by {
                    let b = old(runtime).block(first);
                    let lanes = Seq::new(
                        b.shots.len(),
                        |s: int| promoted(k, kernel_angle, bits[s], b.shots[s].lanes[0]),
                    );
                    lemma_block_lanes(old(runtime), runtime, 0, lanes, first);
                    assert(runtime.part(0) == (Part {
                        k: b.parts[0].k + 1,
                        ..b.parts[0]
                    }));
                }
            }
            Ok(())
        },
    }
}

/// Measures a part of every shot. The branches come back; the branch symbol is
/// still to be assigned.
pub fn measure_part_batch<A: Copy, K: ActiveKernels<A>>(
    k: &K,
    runtime: &mut BatchFactoredExecutorState<A>,
    j: usize,
    kernel: MeasurementKernel,
) -> (r: Result<Vec<u64>>)
    requires
        lawful::<A, K>(k),
        old(runtime).ready(),
        j < old(runtime).part_count(),
        old(runtime).part(j as int).active,
    ensures
        final(runtime).same_frame(old(runtime)),
        final(runtime).active_shots == old(runtime).active_shots,
        match r {
            Ok(bits) => {
                &&& final(runtime).ready()
                &&& bits@.len() == old(runtime).batch_words
                &&& final(runtime).part(j as int).active
                &&& forall|first: int|
                    measure(k, #[trigger] old(runtime).block(first), j as int, kernel) == Ok::<
                        (Block<A>, Seq<bool>),
                        Seq<char>,
                    >(
                        (
                            final(runtime).block(first),
                            row_bits(bits@, old(runtime).active_shots as int),
                        ),
                    )
            },
            Err(e) => forall|first: int|
                measure(k, #[trigger] old(runtime).block(first), j as int, kernel) == Err::<
                    (Block<A>, Seq<bool>),
                    Seq<char>,
                >(e@),
        },
{
    let width: usize = part_width(runtime, j);
    if width == 0 {
        return Err(TicitError::new("cannot measure an active Pauli when k == 0"));
    }
    if kernel.action.nqubits != width {
        return Err(
            TicitError::new("measurement kernel dimension does not match batch active state"),
        );
    }
    proof {
        lemma_part_room(runtime, j as int);
    }
    let dim: usize = part_dimension(runtime, j);
    let layout: LaneLayout = layout_of(runtime, j);
    let shots: usize = runtime.active_shots;
    let words: usize = runtime.batch_words;
    let rng: u64 = runtime.rng_state;
    let ghost count = old(runtime).part_count();
    proof {
        lemma_dimension_positive(width as int - 1);
        if runtime.active_components_enabled {
            assert forall|i: int| 0 <= i < count implies 0 <= (#[trigger] runtime.parts()[i]).k by {}
            lemma_widths_bound(runtime.parts(), j as int, count);
        }
        assert forall|first: int| #[trigger] part_lanes(old(runtime).block(first), j as int)
            == layout.lanes(old(runtime).store(j as int), shots as int, dim as int) by {
            assert(part_lanes(old(runtime).block(first), j as int) =~= layout.lanes(
                old(runtime).store(j as int),
                shots as int,
                dim as int,
            ));
        }
    }
    let drawn: Option<Branches> = if runtime.active_components_enabled {
        measure_lanes(
            k,
            &mut runtime.active_components[j].amplitudes,
            layout,
            shots,
            dim,
            kernel,
            rng,
            words,
        )
    } else {
        measure_lanes(k, &mut runtime.active, layout, shots, dim, kernel, rng, words)
    };
    match drawn {
        None => {
            proof {
                assert forall|first: int|
                    measure(k, #[trigger] old(runtime).block(first), j as int, kernel) == Err::<
                        (Block<A>, Seq<bool>),
                        Seq<char>,
                    >("sampled an impossible active measurement branch"@) by {
                    assert(part_lanes(old(runtime).block(first), j as int) == layout.lanes(
                        old(runtime).store(j as int),
                        shots as int,
                        dim as int,
                    ));
                }
            }
            Err(TicitError::new("sampled an impossible active measurement branch"))
        },
        Some(branches) => {
            runtime.rng_state = branches.rng;
            if runtime.active_components_enabled {
                runtime.active_components[j].k = width - 1;
            }
            runtime.k -= 1;
            runtime.ndormant += 1;
            proof {
                lemma_only_part(old(runtime), runtime, j as int);
                let half = dimension(width as int - 1);
                assert(2 * half == dim);
                lemma_part_after(old(runtime), runtime, j as int);
                let lanes = layout.lanes(runtime.store(j as int), shots as int, half);
                let row = row_bits(branches.bits@, shots as int);
                assert(row =~= Seq::new(shots as nat, |s: int| row_bit(branches.bits@, s)));
                assert forall|first: int|
                    measure(k, #[trigger] old(runtime).block(first), j as int, kernel) == Ok::<
                        (Block<A>, Seq<bool>),
                        Seq<char>,
                    >((runtime.block(first), row)) by {
                    assert(part_lanes(old(runtime).block(first), j as int) == layout.lanes(
                        old(runtime).store(j as int),
                        shots as int,
                        dim as int,
                    ));
                    lemma_block_lanes(old(runtime), runtime, j as int, lanes, first);
                }
            }
            Ok(branches.bits)
        },
    }
}

/// A part lost a qubit: the state is still ready.
proof fn lemma_part_after<A: Copy>(
    before: &BatchFactoredExecutorState<A>,
    after: &BatchFactoredExecutorState<A>,
    j: int,
)
    requires
        before.ready(),
        only_part(before, after, j),
        after.planes_wf(),
        0 <= j < before.part_count(),
        after.active_stride == before.active_stride,
        after.store(j).len() == before.store(j).len(),
        after.part(j) == (Part { k: before.part(j).k - 1, ..before.part(j) }),
        before.part(j).active,
        before.part(j).k >= 1,
        after.k == before.k - 1,
        after.ndormant == before.ndormant + 1,
        before.active_components_enabled ==> {
            &&& after.active_components@.len() == before.active_components@.len()
            &&& forall|i: int|
                0 <= i < before.active_components@.len() && i != j
                    ==> #[trigger] after.active_components@[i] == before.active_components@[i]
        },
    ensures
        after.ready(),
{
    lemma_dimension_grows(before.part(j).k - 1, before.part(j).k);
    if before.active_components_enabled {
        assert forall|i: int| 0 <= i < after.active_components@.len() implies component_wf(
            #[trigger] after.active_components@[i],
            after.active_pitch as int,
        ) by {
            assert(component_wf(before.active_components@[i], before.active_pitch as int));
            if i == j {
                assert(after.part(i).stride == before.part(i).stride);
            }
        }
        let a = before.parts();
        let b = after.parts();
        assert forall|i: int| 0 <= i < before.part_count() && i != j implies width(#[trigger] a[i])
            == width(b[i]) by {
            assert(after.part(i) == before.part(i));
        }
        lemma_widths_update(a, b, j, before.part_count());
    }
}

/// The expectations of a Pauli of the whole active state, written to a slot.
pub fn measure_precomputed_active_pauli_expectation_batch<A: Copy, K: ActiveKernels<A>>(
    k: &K,
    runtime: &mut BatchFactoredExecutorState<A>,
    kernel: MeasurementKernel,
    outcome_bits: &[u64],
    exp_val: i32,
) -> (r: Result<()>)
    requires
        lawful::<A, K>(k),
        old(runtime).ready(),
        !old(runtime).active_components_enabled,
    ensures
        final(runtime).same_frame(old(runtime)),
        final(runtime).active_shots == old(runtime).active_shots,
        match r {
            Ok(_) => final(runtime).ready() && forall|first: int|
                expect_part(
                    k,
                    #[trigger] old(runtime).block(first),
                    0,
                    kernel,
                    row_bits(outcome_bits@, old(runtime).active_shots as int),
                    exp_val,
                ) == Ok::<Block<A>, Seq<char>>(final(runtime).block(first)),
            Err(e) => forall|first: int|
                expect_part(
                    k,
                    #[trigger] old(runtime).block(first),
                    0,
                    kernel,
                    row_bits(outcome_bits@, old(runtime).active_shots as int),
                    exp_val,
                ) == Err::<Block<A>, Seq<char>>(e@),
        },
{
    if runtime.k == 0 {
        return Err(TicitError::new("cannot measure an active Pauli when k == 0"));
    }
    if kernel.action.nqubits != runtime.k {
        return Err(
            TicitError::new("measurement kernel dimension does not match batch active state"),
        );
    }
    proof {
        lemma_part_room(runtime, 0);
    }
    let dim: usize = part_dimension(runtime, 0);
    let layout: LaneLayout = layout_of(runtime, 0);
    let values: Vec<u64> = expect_lanes(
        k,
        &runtime.active,
        layout,
        runtime.active_shots,
        dim,
        kernel,
        outcome_bits,
    );
    proof {
        let bits = row_bits(outcome_bits@, old(runtime).active_shots as int);
        assert forall|first: int|
            expect_part(k, #[trigger] old(runtime).block(first), 0, kernel, bits, exp_val)
                == write_exp(old(runtime).block(first), exp_val, values@) by {
            let b = old(runtime).block(first);
            assert(values@ =~= Seq::new(
                b.shots.len(),
                |s: int| expectation(k, kernel, bits[s], b.shots[s].lanes[0]),
            ));
        }
    }
    write_batch_expectation_values(runtime, exp_val, &values)
}

/// Writes one value per live shot into an expectation slot.
pub fn write_batch_expectation_values<A: Copy>(
    runtime: &mut BatchFactoredExecutorState<A>,
    exp_val: i32,
    values: &Vec<u64>,
) -> (r: Result<()>)
    requires
        old(runtime).ready(),
        values@.len() == old(runtime).active_shots,
    ensures
        final(runtime).same_frame(old(runtime)),
        final(runtime).active_shots == old(runtime).active_shots,
        match r {
            Ok(_) => final(runtime).ready() && forall|first: int|
                write_exp(#[trigger] old(runtime).block(first), exp_val, values@) == Ok::<
                    Block<A>,
                    Seq<char>,
                >(final(runtime).block(first)),
            Err(e) => *final(runtime) == *old(runtime) && forall|first: int|
                write_exp(#[trigger] old(runtime).block(first), exp_val, values@) == Err::<
                    Block<A>,
                    Seq<char>,
                >(e@),
        },
{
    if exp_val < 0 || exp_val as usize >= runtime.nexpvals {
        return Err(TicitError::new("expectation value index is out of range"));
    }
    let ghost e = exp_val as int;
    let ghost st = runtime.batches as int;
    let ghost base = e * st;
    let ghost start = runtime.exp_values@;
    let len: usize = runtime.exp_values.len();
    let slot: usize = exp_val as usize;
    let shots: usize = runtime.active_shots;
    let mut shot: usize = 0;
    while shot < shots
        invariant
            shot <= shots,
            shots == old(runtime).active_shots,
            old(runtime).ready(),
            e == exp_val,
            slot == e,
            0 <= e < old(runtime).nexpvals,
            st == old(runtime).batches,
            base == e * st,
            start == old(runtime).exp_values@,
            start.len() == old(runtime).nexpvals * st,
            len == start.len(),
            values@.len() == shots,
            *runtime == (BatchFactoredExecutorState { exp_values: runtime.exp_values, ..*old(runtime) }),
            runtime.exp_values@.len() == start.len(),
            forall|i: int|
                0 <= i < start.len() ==> #[trigger] runtime.exp_values@[i] == if base <= i < base
                    + shot {
                    values@[i - base]
                } else {
                    start[i]
                },
        decreases shots - shot,
    {
        proof {
            crate::planes::lemma_plane_index(st, old(runtime).nexpvals as int, e, shot as int);
        }
        let at: usize = crate::planes::plane_offset(runtime.batches, slot, shot);
        let value: u64 = values[shot];
        runtime.exp_values.set(at, value);
        shot += 1;
    }
    proof {
        assert forall|first: int|
            write_exp(#[trigger] old(runtime).block(first), exp_val, values@) == Ok::<
                Block<A>,
                Seq<char>,
            >(runtime.block(first)) by {
            lemma_block_exps(old(runtime), runtime, e, values@, first);
        }
        lemma_block_exps(old(runtime), runtime, e, values@, 0);
    }
    Ok(())
}

// ---------------------------------------------------------------------------
// Tensor factors
// ---------------------------------------------------------------------------
/// Merges one component into another.
#[verifier::rlimit(40)]
fn merge_component<A: Copy, K: ActiveKernels<A>>(
    k: &K,
    runtime: &mut BatchFactoredExecutorState<A>,
    target: usize,
    source: usize,
) -> (r: Result<()>)
    requires
        lawful::<A, K>(k),
        old(runtime).ready(),
        old(runtime).active_components_enabled,
        target < old(runtime).part_count(),
        old(runtime).part(target as int).active,
    ensures
        final(runtime).same_frame(old(runtime)),
        final(runtime).active_shots == old(runtime).active_shots,
        match r {
            Ok(_) => {
                &&& final(runtime).ready()
                &&& final(runtime).part_count() == old(runtime).part_count()
                &&& final(runtime).part(target as int).active
                &&& forall|first: int|
                    merge_one(
                        k,
                        #[trigger] old(runtime).block(first),
                        target as int,
                        source as int,
                    ) == Ok::<Block<A>, Seq<char>>(final(runtime).block(first))
            },
            Err(e) => forall|first: int|
                merge_one(
                    k,
                    #[trigger] old(runtime).block(first),
                    target as int,
                    source as int,
                ) == Err::<Block<A>, Seq<char>>(e@),
        },
{
    if source >= runtime.active_components.len() || source == target {
        return Err(TicitError::new("active component merge has an invalid source"));
    }
    if !runtime.active_components[source].active {
        return Err(TicitError::new("active component merge source is inactive"));
    }
    let ghost t = target as int;
    let ghost u = source as int;
    let ghost count = old(runtime).part_count();
    proof {
        lemma_part_room(runtime, t);
        lemma_part_room(runtime, u);
        assert forall|i: int| 0 <= i < count implies 0 <= (#[trigger] runtime.parts()[i]).k by {}
        if t < u {
            lemma_widths_two(runtime.parts(), t, u, count);
        } else {
            lemma_widths_two(runtime.parts(), u, t, count);
        }
        assert(runtime.parts()[t] == runtime.part(t));
        assert(runtime.parts()[u] == runtime.part(u));
    }
    let target_dim: usize = part_dimension(runtime, target);
    let source_dim: usize = part_dimension(runtime, source);
    let merged_k: usize = runtime.active_components[target].k + runtime.active_components[source].k;
    let merged_dim: usize = match active_length(merged_k) {
        Ok(dim) => dim,
        Err(e) => {
            return Err(e);
        },
    };
    if runtime.active_components[target].stride < merged_dim {
        return Err(TicitError::new("active component merge target has insufficient storage"));
    }
    proof {
        lemma_dimension_sum(runtime.part(t).k, runtime.part(u).k);
    }
    let target_layout: LaneLayout = layout_of(runtime, target);
    let source_layout: LaneLayout = layout_of(runtime, source);
    let shots: usize = runtime.active_shots;
    let mut lifted: Vec<A> = Vec::new();
    std::mem::swap(&mut lifted, &mut runtime.active_components[source].amplitudes);
    tensor_lanes(
        k,
        &mut runtime.active_components[target].amplitudes,
        target_layout,
        target_dim,
        &lifted,
        source_layout,
        source_dim,
        shots,
    );
    std::mem::swap(&mut lifted, &mut runtime.active_components[source].amplitudes);
    runtime.active_components[target].k = merged_k;
    let ghost mid = *runtime;
    proof {
        assert(mid.active_components@[u] == old(runtime).active_components@[u]);
        lemma_only_part(old(runtime), &mid, t);
    }
    runtime.active_components[source].k = 0;
    runtime.active_components[source].active = false;
    proof {
        lemma_only_part(&mid, runtime, u);
        assert(runtime.active_components@[t] == mid.active_components@[t]);
        let before = old(runtime).parts();
        let between = mid.parts();
        let after = runtime.parts();
        assert forall|i: int| 0 <= i < count && i != t implies width(#[trigger] before[i]) == width(
            between[i],
        ) by {
            assert(mid.part(i) == old(runtime).part(i));
        }
        lemma_widths_update(before, between, t, count);
        assert forall|i: int| 0 <= i < count && i != u implies width(#[trigger] between[i]) == width(
            after[i],
        ) by {
            assert(runtime.part(i) == mid.part(i));
        }
        lemma_widths_update(between, after, u, count);
        assert(between[u] == mid.part(u) && mid.part(u) == old(runtime).part(u));
        assert(widths(after, count) == runtime.k);
        assert forall|i: int| 0 <= i < runtime.active_components@.len() implies component_wf(
            #[trigger] runtime.active_components@[i],
            runtime.active_pitch as int,
        ) by {
            assert(component_wf(old(runtime).active_components@[i], runtime.active_pitch as int));
            if i != t && i != u {
                assert(mid.active_components@[i] == old(runtime).active_components@[i]);
            }
        }
        assert forall|first: int|
            merge_one(k, #[trigger] old(runtime).block(first), t, u) == Ok::<Block<A>, Seq<char>>(
                runtime.block(first),
            ) by {
            let b = old(runtime).block(first);
            let lanes = Seq::new(
                b.shots.len(),
                |s: int| tensor(k, b.shots[s].lanes[t], b.shots[s].lanes[u]),
            );
            assert forall|s: int| 0 <= s < old(runtime).active_shots implies #[trigger] mid.lane(s, t)
                == lanes[s] by {
                assert(mid.lane(s, t) == target_layout.lane(
                    mid.store(t),
                    s,
                    target_dim as int * source_dim as int,
                ));
                assert(old(runtime).lane(s, t) == target_layout.lane(
                    old(runtime).store(t),
                    s,
                    target_dim as int,
                ));
                assert(old(runtime).lane(s, u) == source_layout.lane(
                    old(runtime).store(u),
                    s,
                    source_dim as int,
                ));
            }
            lemma_block_lanes(old(runtime), &mid, t, lanes, first);
            let none = Seq::new(b.shots.len(), |s: int| Seq::<A>::empty());
            lemma_block_lanes(&mid, runtime, u, none, first);
            assert(mid.block(first).parts[u] == b.parts[u]);
            assert(runtime.part(u) == (Part { k: 0, active: false, ..b.parts[u] }));
            assert(mid.part(t) == (Part { k: b.parts[t].k + b.parts[u].k, ..b.parts[t] }));
        }
    }
    Ok(())
}

/// Merges a range of the merge list into its first component.
pub fn merge_batch_components<A: Copy, K: ActiveKernels<A>>(
    k: &K,
    runtime: &mut BatchFactoredExecutorState<A>,
    merge_components: &Vec<usize>,
    merge_offset: usize,
    merge_count: usize,
    expected_target: usize,
) -> (r: Result<()>)
    requires
        lawful::<A, K>(k),
        old(runtime).ready(),
        old(runtime).active_components_enabled,
        merge_offset + merge_count <= usize::MAX,
    ensures
        final(runtime).same_frame(old(runtime)),
        final(runtime).active_shots == old(runtime).active_shots,
        match r {
            Ok(_) => {
                &&& final(runtime).ready()
                &&& final(runtime).part_count() == old(runtime).part_count()
                &&& expected_target < final(runtime).part_count()
                &&& final(runtime).part(expected_target as int).active
                &&& forall|first: int|
                    merge(
                        k,
                        #[trigger] old(runtime).block(first),
                        merge_components@,
                        merge_offset as int,
                        merge_count as int,
                        expected_target as int,
                    ) == Ok::<Block<A>, Seq<char>>(final(runtime).block(first))
            },
            Err(e) => forall|first: int|
                merge(
                    k,
                    #[trigger] old(runtime).block(first),
                    merge_components@,
                    merge_offset as int,
                    merge_count as int,
                    expected_target as int,
                ) == Err::<Block<A>, Seq<char>>(e@),
        },
{
    if merge_count == 0 || merge_offset + merge_count > merge_components.len() {
        return Err(TicitError::new("active component instruction has an invalid merge range"));
    }
    let target: usize = merge_components[merge_offset];
    if target != expected_target || target >= runtime.active_components.len() {
        return Err(TicitError::new("active component merge has an invalid target"));
    }
    if !runtime.active_components[target].active {
        return Err(TicitError::new("active component merge target is inactive"));
    }
    let end: usize = merge_offset + merge_count;
    let mut at: usize = merge_offset + 1;
    let ghost list = merge_components@;
    let ghost t = target as int;
    while at < end
        invariant
            merge_offset < at <= end,
            end <= list.len(),
            list == merge_components@,
            t == target,
            lawful::<A, K>(k),
            runtime.ready(),
            runtime.active_components_enabled,
            runtime.same_frame(old(runtime)),
            runtime.active_shots == old(runtime).active_shots,
            runtime.part_count() == old(runtime).part_count(),
            target < runtime.part_count(),
            runtime.part(t).active,
            forall|first: int|
                merge_from(
                    k,
                    #[trigger] old(runtime).block(first),
                    list,
                    t,
                    merge_offset as int + 1,
                    end as int,
                ) == merge_from(k, runtime.block(first), list, t, at as int, end as int),
            forall|first: int|
                merge(
                    k,
                    #[trigger] old(runtime).block(first),
                    list,
                    merge_offset as int,
                    merge_count as int,
                    expected_target as int,
                ) == merge_from(
                    k,
                    old(runtime).block(first),
                    list,
                    t,
                    merge_offset as int + 1,
                    end as int,
                ),
        decreases end - at,
    {
        let ghost before = *runtime;
        let source: usize = merge_components[at];
        match merge_component(k, runtime, target, source) {
            Err(e) => {
                proof {
                    assert forall|first: int|
                        merge_from(
                            k,
                            #[trigger] old(runtime).block(first),
                            list,
                            t,
                            merge_offset as int + 1,
                            end as int,
                        ) == Err::<Block<A>, Seq<char>>(e@) by {
                        let b = before.block(first);
                        assert(merge_one(k, b, t, source as int) == Err::<Block<A>, Seq<char>>(e@));
                    }
                }
                return Err(e);
            },
            Ok(_) => {},
        }
        proof {
            assert forall|first: int|
                merge_from(
                    k,
                    #[trigger] old(runtime).block(first),
                    list,
                    t,
                    merge_offset as int + 1,
                    end as int,
                ) == merge_from(k, runtime.block(first), list, t, at as int + 1, end as int) by {
                let b = before.block(first);
                assert(merge_one(k, b, t, source as int) == Ok::<Block<A>, Seq<char>>(
                    runtime.block(first),
                ));
            }
        }
        at += 1;
    }
    Ok(())
}

/// Switches a component on with one dormant qubit.
pub fn execute_batch_component_promotion<A: Copy, K: ActiveKernels<A>>(
    k: &K,
    runtime: &mut BatchFactoredExecutorState<A>,
    component: usize,
    kernel_angle: u64,
    sign_bits: &[u64],
) -> (r: Result<()>)
    requires
        lawful::<A, K>(k),
        old(runtime).ready(),
        old(runtime).active_components_enabled,
    ensures
        final(runtime).same_frame(old(runtime)),
        final(runtime).active_shots == old(runtime).active_shots,
        match r {
            Ok(_) => final(runtime).ready() && forall|first: int|
                promote_part(
                    k,
                    #[trigger] old(runtime).block(first),
                    component as int,
                    kernel_angle,
                    row_bits(sign_bits@, old(runtime).active_shots as int),
                ) == Ok::<Block<A>, Seq<char>>(final(runtime).block(first)),
            Err(e) => forall|first: int|
                promote_part(
                    k,
                    #[trigger] old(runtime).block(first),
                    component as int,
                    kernel_angle,
                    row_bits(sign_bits@, old(runtime).active_shots as int),
                ) == Err::<Block<A>, Seq<char>>(e@),
        },
{
    if runtime.ndormant == 0 || component >= runtime.active_components.len() {
        return Err(TicitError::new("active component promotion is invalid"));
    }
    if runtime.active_components[component].active || runtime.active_components[component].stride
        < 2 {
        return Err(TicitError::new("active component promotion target is unavailable"));
    }
    let ghost j = component as int;
    let ghost count = old(runtime).part_count();
    proof {
        lemma_part_room(runtime, j);
    }
    let layout: LaneLayout = layout_of(runtime, component);
    let shots: usize = runtime.active_shots;
    let mut store: Vec<A> = Vec::new();
    std::mem::swap(&mut store, &mut runtime.active_components[component].amplitudes);
    let ghost start = store@;
    let mut shot: usize = 0;
    while shot < shots
        invariant
            shot <= shots,
            lawful::<A, K>(k),
            layout.fits(store@),
            store@.len() == start.len(),
            shots <= layout.pitch,
            2 <= layout.stride,
            forall|s: int|
                0 <= s < shot ==> #[trigger] layout.lane(store@, s, 2) == promoted(
                    k,
                    kernel_angle,
                    row_bit(sign_bits@, s),
                    seq![one_of::<A, K>(k)],
                ),
        decreases shots - shot,
    {
        let mut lane: Vec<A> = Vec::new();
        let one: A = k.one();
        lane.push(one);
        assert(lane@ =~= seq![one_of::<A, K>(k)]);
        let sign: bool = batch_bit_at(sign_bits, shot);
        let wide: Vec<A> = k.promote(kernel_angle, sign, lane);
        write_lane(&mut store, layout, shot, &wide);
        shot += 1;
    }
    std::mem::swap(&mut store, &mut runtime.active_components[component].amplitudes);
    runtime.active_components[component].k = 1;
    runtime.active_components[component].active = true;
    runtime.k += 1;
    runtime.ndormant -= 1;
    proof {
        lemma_only_part(old(runtime), runtime, j);
        reveal_with_fuel(dimension, 2);
        let before = old(runtime).parts();
        let after = runtime.parts();
        assert forall|i: int| 0 <= i < count && i != j implies width(#[trigger] before[i]) == width(
            after[i],
        ) by {
            assert(runtime.part(i) == old(runtime).part(i));
        }
        lemma_widths_update(before, after, j, count);
        assert forall|i: int| 0 <= i < runtime.active_components@.len() implies component_wf(
            #[trigger] runtime.active_components@[i],
            runtime.active_pitch as int,
        ) by {
            assert(component_wf(old(runtime).active_components@[i], runtime.active_pitch as int));
        }
        let bits = row_bits(sign_bits@, shots as int);
        assert forall|first: int|
            promote_part(k, #[trigger] old(runtime).block(first), j, kernel_angle, bits) == Ok::<
                Block<A>,
                Seq<char>,
            >(runtime.block(first)) by {
            let b = old(runtime).block(first);
            let lanes = Seq::new(
                b.shots.len(),
                |s: int| promoted(k, kernel_angle, bits[s], seq![one_of::<A, K>(k)]),
            );
            assert forall|s: int| 0 <= s < old(runtime).active_shots implies #[trigger] runtime.lane(
                s,
                j,
            ) == lanes[s] by {
                assert(runtime.lane(s, j) == layout.lane(runtime.store(j), s, 2));
            }
            lemma_block_lanes(old(runtime), runtime, j, lanes, first);
            assert(runtime.part(j) == (Part { k: 1, active: true, ..b.parts[j] }));
        }
    }
    Ok(())
}

/// Switches a component off.
pub fn deactivate_component<A: Copy>(runtime: &mut BatchFactoredExecutorState<A>, component: usize)
    requires
        old(runtime).ready(),
        old(runtime).active_components_enabled,
        component < old(runtime).part_count(),
        old(runtime).part(component as int).k == 0,
    ensures
        final(runtime).ready(),
        final(runtime).same_frame(old(runtime)),
        final(runtime).active_shots == old(runtime).active_shots,
        forall|first: int|
            with_lanes(
                #[trigger] old(runtime).block(first),
                component as int,
                Part { active: false, ..old(runtime).block(first).parts[component as int] },
                Seq::new(old(runtime).block(first).shots.len(), |s: int| Seq::<A>::empty()),
            ) == final(runtime).block(first),
{
    runtime.active_components[component].active = false;
    proof {
        let j = component as int;
        let count = old(runtime).part_count();
        lemma_only_part(old(runtime), runtime, j);
        let before = old(runtime).parts();
        let after = runtime.parts();
        assert forall|i: int| 0 <= i < count && i != j implies width(#[trigger] before[i]) == width(
            after[i],
        ) by {
            assert(runtime.part(i) == old(runtime).part(i));
        }
        lemma_widths_update(before, after, j, count);
        assert forall|i: int| 0 <= i < runtime.active_components@.len() implies component_wf(
            #[trigger] runtime.active_components@[i],
            runtime.active_pitch as int,
        ) by {
            assert(component_wf(old(runtime).active_components@[i], runtime.active_pitch as int));
        }
        assert forall|first: int|
            with_lanes(
                #[trigger] old(runtime).block(first),
                j,
                Part { active: false, ..old(runtime).block(first).parts[j] },
                Seq::new(old(runtime).block(first).shots.len(), |s: int| Seq::<A>::empty()),
            ) == runtime.block(first) by {
            let b = old(runtime).block(first);
            let none = Seq::new(b.shots.len(), |s: int| Seq::<A>::empty());
            lemma_block_lanes(old(runtime), runtime, j, none, first);
            assert(runtime.part(j) == (Part { active: false, ..b.parts[j] }));
        }
    }
}

} // verus!
