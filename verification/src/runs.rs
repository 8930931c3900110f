//! Fused runs of rotations and promotions: the signs of a whole run are evaluated
//! up front, and each shot's amplitudes are touched once.
//!
//! Rotations and promotions change no symbol, so the signs of a run can all be had
//! before its first rotation, and the order shot by shot gives what the order
//! instruction by instruction gives ([`law_fused_run_is_the_run`]).
use vstd::prelude::*;
use crate::amplitudes::{rotation_mixes, Mix};
use crate::bits::{row_bit, row_bits};
use crate::errors::{Result, TicitError};
use crate::executor::{active_length, dimension, BatchFactoredExecutorState};
use crate::kernels::{lawful, promoted, rotated, ActiveKernels};
use crate::lanes::{dead_view, is_dead, read_lane, shot_is_dead, write_lane, LaneLayout};
use crate::model::{
    lemma_run_split, run, sign_at, sign_refusal, signs, step, with_lanes, Block, Part, Shot,
};
use crate::presampled_expression::PresampledExpressionPlan;
use crate::program::{FactoredInstruction, FactoredInstructionProgram, RotationKernel};
use crate::refine::lemma_block_lanes;
use crate::signs::BatchSignSource;
use crate::symbols::batch_bit_at;

verus! {

/// The longest run that is fused.
pub const SHOT_MAJOR_ROTATION_RUN_LIMIT: usize = 32;

pub open spec fn is_rotation(ins: FactoredInstruction) -> bool {
    ins is ApplyPrecomputedActivePauliRotation
}

pub open spec fn is_promotion(ins: FactoredInstruction) -> bool {
    ins is PromoteDormantRotation
}

/// How many of the `n` instructions from `i` on are promotions.
pub open spec fn promotions(ins: Seq<FactoredInstruction>, i: int, n: int) -> int
    decreases n,
{
    if n <= 0 {
        0
    } else {
        promotions(ins, i, n - 1) + if is_promotion(ins[i + n - 1]) {
            1int
        } else {
            0
        }
    }
}

/// What the `n` rotations and promotions from `i` on make of a shot's amplitudes.
pub open spec fn lane_run<A, K: ActiveKernels<A>>(
    k: &K,
    base: spec_fn(int, int) -> bool,
    plan: PresampledExpressionPlan,
    ins: Seq<FactoredInstruction>,
    i: int,
    n: int,
    shot: Shot<A>,
) -> Seq<A>
    decreases n,
{
    if n <= 0 {
        shot.lanes[0]
    } else {
        let lane = lane_run(k, base, plan, ins, i, n - 1, shot);
        let sign = sign_at(base, plan, i + n - 1, shot);
        match ins[i + n - 1] {
            FactoredInstruction::ApplyPrecomputedActivePauliRotation(inst) => rotated(
                k,
                inst.rotation_kernel,
                sign,
                lane,
            ),
            FactoredInstruction::PromoteDormantRotation(inst) => promoted(
                k,
                inst.kernel_angle,
                sign,
                lane,
            ),
            _ => lane,
        }
    }
}

/// A block after a fused run.
pub open spec fn fused<A, K: ActiveKernels<A>>(
    k: &K,
    base: spec_fn(int, int) -> bool,
    plan: PresampledExpressionPlan,
    ins: Seq<FactoredInstruction>,
    i: int,
    n: int,
    b: Block<A>,
) -> Block<A> {
    let p = promotions(ins, i, n);
    let wide = with_lanes(
        b,
        0,
        Part { k: b.parts[0].k + p, ..b.parts[0] },
        Seq::new(b.shots.len(), |s: int| lane_run(k, base, plan, ins, i, n, b.shots[s])),
    );
    Block { k: b.k + p, ndormant: b.ndormant - p, ..wide }
}

/// Instruction `j` of the run from `i` on is a rotation or promotion that can be
/// done.
pub open spec fn fits_at<A>(
    plan: PresampledExpressionPlan,
    ins: Seq<FactoredInstruction>,
    i: int,
    j: int,
    b: Block<A>,
) -> bool {
    let p = promotions(ins, i, j - i);
    &&& sign_refusal(plan, j, b) is None
    &&& match ins[j] {
        FactoredInstruction::ApplyPrecomputedActivePauliRotation(inst) =>
            inst.rotation_kernel.action.nqubits == b.parts[0].k + p,
        FactoredInstruction::PromoteDormantRotation(_) => p < b.ndormant && 2 * dimension(
            b.parts[0].k + p,
        ) <= b.parts[0].stride,
        _ => false,
    }
}

pub open spec fn run_fits<A>(
    plan: PresampledExpressionPlan,
    ins: Seq<FactoredInstruction>,
    i: int,
    n: int,
    b: Block<A>,
) -> bool {
    forall|j: int| i <= j < i + n ==> #[trigger] fits_at(plan, ins, i, j, b)
}

/// The block has one part, which is the whole active state.
pub open spec fn is_whole<A>(b: Block<A>) -> bool {
    &&& !b.split
    &&& b.parts.len() == 1
    &&& b.parts[0].k == b.k
    &&& forall|s: int| 0 <= s < b.shots.len() ==> (#[trigger] b.shots[s]).lanes.len() == 1
}

/// Doing a run shot by shot gives what doing it instruction by instruction gives.
pub proof fn law_fused_run_is_the_run<A, K: ActiveKernels<A>>(
    k: &K,
    base: spec_fn(int, int) -> bool,
    plan: PresampledExpressionPlan,
    program: &FactoredInstructionProgram,
    i: int,
    n: int,
    b: Block<A>,
)
    requires
        is_whole(b),
        0 <= n,
        run_fits(plan, program.instructions@, i, n, b),
    ensures
        run(k, base, plan, program, i, i + n, b) == Ok::<Block<A>, Seq<char>>(
            fused(k, base, plan, program.instructions@, i, n, b),
        ),
    decreases n,
{
    let ins = program.instructions@;
    if n == 0 {
        let f = fused(k, base, plan, ins, i, 0, b);
        assert(f.parts =~= b.parts);
        assert forall|s: int| 0 <= s < b.shots.len() implies #[trigger] f.shots[s] == b.shots[s] by {
            assert(f.shots[s].lanes =~= b.shots[s].lanes);
        }
        assert(f.shots =~= b.shots);
    } else {
        let j = i + n - 1;
        assert(run_fits(plan, ins, i, n - 1, b)) by {
            assert forall|m: int| i <= m < i + (n - 1) implies #[trigger] fits_at(plan, ins, i, m, b) by {
                assert(fits_at(plan, ins, i, m, b));
            }
        }
        law_fused_run_is_the_run(k, base, plan, program, i, n - 1, b);
        lemma_run_split(k, base, plan, program, i, j, i + n, b);
        let f = fused(k, base, plan, ins, i, n - 1, b);
        let g = fused(k, base, plan, ins, i, n, b);
        assert(fits_at(plan, ins, i, j, b));
        assert(sign_refusal(plan, j, f) == sign_refusal(plan, j, b));
        let all = signs(base, plan, j, f);
        assert forall|s: int| 0 <= s < b.shots.len() implies #[trigger] all[s] == sign_at(
            base,
            plan,
            j,
            b.shots[s],
        ) by {
            assert(f.shots[s].values == b.shots[s].values);
            assert(f.shots[s].sample == b.shots[s].sample);
        }
        reveal_with_fuel(run, 2);
        let stepped = step(k, base, plan, program, j, f);
        match stepped {
            Ok(after) => {
                assert(after.parts =~= g.parts);
                assert forall|s: int| 0 <= s < b.shots.len() implies #[trigger] after.shots[s]
                    == g.shots[s] by {
                    assert(all[s] == sign_at(base, plan, j, b.shots[s]));
                    assert(after.shots[s].lanes =~= g.shots[s].lanes);
                }
                assert(after.shots =~= g.shots);
                assert(after == g);
            },
            Err(_) => {
                assert(false);
            },
        }
        assert(run(k, base, plan, program, j, i + n, f) == Ok::<Block<A>, Seq<char>>(g)) by {
            assert(run(k, base, plan, program, j + 1, i + n, g) == Ok::<Block<A>, Seq<char>>(g));
        }
    }
}

/// The run stops at instruction `j` with a text. A rotation that fits neither the
/// symbols nor the width may report either.
pub open spec fn stops_at<A, K: ActiveKernels<A>>(
    k: &K,
    base: spec_fn(int, int) -> bool,
    plan: PresampledExpressionPlan,
    program: &FactoredInstructionProgram,
    i: int,
    j: int,
    b: Block<A>,
    text: Seq<char>,
) -> bool {
    &&& i <= j < program.instructions@.len()
    &&& match run(k, base, plan, program, i, j, b) {
        Ok(reached) => {
            let stepped = step(k, base, plan, program, j, reached);
            &&& stepped is Err
            &&& (stepped->Err_0 == text || (mismatched(program.instructions@[j], reached) && text
                == "rotation kernel dimension does not match batch active state"@))
        },
        Err(_) => false,
    }
}

/// A rotation of another width than the whole active state.
pub open spec fn mismatched<A>(ins: FactoredInstruction, b: Block<A>) -> bool {
    match ins {
        FactoredInstruction::ApplyPrecomputedActivePauliRotation(inst) => !b.split
            && inst.rotation_kernel.action.nqubits != b.parts[0].k,
        _ => false,
    }
}

/// The instructions from `i` up to `j` are rotations and promotions.
pub open spec fn turning(program: &FactoredInstructionProgram, i: int, j: int) -> bool {
    forall|m: int|
        i <= m < j ==> is_rotation(#[trigger] program.instructions@[m]) || is_promotion(
            program.instructions@[m],
        )
}

/// The run stops somewhere with a text.
pub open spec fn run_stops<A, K: ActiveKernels<A>>(
    k: &K,
    base: spec_fn(int, int) -> bool,
    plan: PresampledExpressionPlan,
    program: &FactoredInstructionProgram,
    i: int,
    b: Block<A>,
    text: Seq<char>,
) -> bool {
    exists|j: int| #[trigger] stops_at(k, base, plan, program, i, j, b, text)
}

/// A run of rotations and promotions stops with a text.
pub open spec fn turning_stops<A, K: ActiveKernels<A>>(
    k: &K,
    base: spec_fn(int, int) -> bool,
    plan: PresampledExpressionPlan,
    program: &FactoredInstructionProgram,
    i: int,
    b: Block<A>,
    text: Seq<char>,
) -> bool {
    exists|j: int|
        #[trigger] stops_at(k, base, plan, program, i, j, b, text) && turning(program, i, j + 1)
}

/// Equal but for the dead shots.
pub open spec fn agrees_alive<A>(x: Block<A>, y: Block<A>, dead: Option<Seq<u64>>) -> bool {
    &&& x.shots.len() == y.shots.len()
    &&& x == (Block { shots: x.shots, ..y })
    &&& forall|s: int|
        0 <= s < x.shots.len() && !is_dead(dead, s) ==> #[trigger] x.shots[s] == y.shots[s]
}

/// How many rotations stand from `first` on, up to `limit`.
pub open spec fn rotation_run(ins: Seq<FactoredInstruction>, first: int, limit: int) -> int
    decreases limit,
{
    if limit <= 0 || first >= ins.len() || !is_rotation(ins[first]) {
        0
    } else {
        1 + rotation_run(ins, first + 1, limit - 1)
    }
}

/// The rotations from `first_index` on, up to the limit.
pub fn shot_major_rotation_run_length(program: &FactoredInstructionProgram, first_index: usize) -> (r:
    usize)
    requires
        first_index <= program.instructions@.len(),
    ensures
        r == rotation_run(
            program.instructions@,
            first_index as int,
            SHOT_MAJOR_ROTATION_RUN_LIMIT as int,
        ),
        r <= SHOT_MAJOR_ROTATION_RUN_LIMIT,
        first_index + r <= program.instructions@.len(),
        forall|j: int|
            first_index <= j < first_index + r ==> is_rotation(#[trigger] program.instructions@[j]),
{
    let mut run_len: usize = 0;
    let n: usize = program.instructions.len();
    while run_len < SHOT_MAJOR_ROTATION_RUN_LIMIT && run_len < n - first_index
        invariant
            n == program.instructions@.len(),
            first_index <= n,
            run_len <= SHOT_MAJOR_ROTATION_RUN_LIMIT,
            first_index + run_len <= n,
            rotation_run(
                program.instructions@,
                first_index as int,
                SHOT_MAJOR_ROTATION_RUN_LIMIT as int,
            ) == run_len + rotation_run(
                program.instructions@,
                first_index + run_len,
                SHOT_MAJOR_ROTATION_RUN_LIMIT - run_len,
            ),
            forall|j: int|
                first_index <= j < first_index + run_len ==> is_rotation(
                    #[trigger] program.instructions@[j],
                ),
        decreases SHOT_MAJOR_ROTATION_RUN_LIMIT - run_len,
    {
        match &program.instructions[first_index + run_len] {
            FactoredInstruction::ApplyPrecomputedActivePauliRotation(_) => {},
            _ => {
                return run_len;
            },
        }
        run_len += 1;
    }
    run_len
}

/// How many promotions carry a state of dimension `dim` to sixteen.
pub open spec fn promotions_to_sixteen(dim: int) -> int {
    if dim == 2 {
        3
    } else if dim == 4 {
        2
    } else if dim == 8 {
        1
    } else {
        0
    }
}

/// The promotions from `first` on that carry the state exactly to dimension
/// sixteen with a rotation behind them; zero where the shape does not match.
pub open spec fn promotion_prefix(
    ins: Seq<FactoredInstruction>,
    first: int,
    dim: int,
    ndormant: int,
) -> int {
    let needed = promotions_to_sixteen(dim);
    if needed <= ndormant && first + needed < ins.len() && is_rotation(ins[first + needed])
        && forall|j: int| first <= j < first + needed ==> is_promotion(#[trigger] ins[j]) {
        needed
    } else {
        0
    }
}

/// The promotions from `first_index` on that carry the state exactly to dimension
/// sixteen with a rotation behind them; zero where the shape does not match.
pub fn shot_major_promotion_prefix_length(
    program: &FactoredInstructionProgram,
    first_index: usize,
    dim: usize,
    ndormant: usize,
) -> (r: usize)
    requires
        first_index <= program.instructions@.len(),
    ensures
        r == promotion_prefix(
            program.instructions@,
            first_index as int,
            dim as int,
            ndormant as int,
        ),
{
    let needed: usize = if dim == 2 {
        3
    } else if dim == 4 {
        2
    } else if dim == 8 {
        1
    } else {
        0
    };
    let n: usize = program.instructions.len();
    if needed > ndormant || needed >= n - first_index {
        return 0;
    }
    match &program.instructions[first_index + needed] {
        FactoredInstruction::ApplyPrecomputedActivePauliRotation(_) => {},
        _ => {
            return 0;
        },
    }
    let mut offset: usize = 0;
    while offset < needed
        invariant
            offset <= needed,
            n == program.instructions@.len(),
            needed == promotions_to_sixteen(dim as int),
            needed <= ndormant,
            first_index + needed < program.instructions@.len(),
            is_rotation(program.instructions@[first_index + needed]),
            forall|j: int|
                first_index <= j < first_index + offset ==> is_promotion(
                    #[trigger] program.instructions@[j],
                ),
        decreases needed - offset,
    {
        match &program.instructions[first_index + offset] {
            FactoredInstruction::PromoteDormantRotation(_) => {},
            _ => {
                assert(!is_promotion(program.instructions@[first_index + offset]));
                return 0;
            },
        }
        offset += 1;
    }
    needed
}

/// The highest set bit of a mask of four bits.
pub open spec fn top_of_four(mask: u64) -> u32 {
    if mask >= 8 {
        3
    } else if mask >= 4 {
        2
    } else if mask >= 2 {
        1
    } else {
        0
    }
}

/// A rotation of `width` qubits that mixes every pair of sixteen amplitudes with one
/// imaginary coefficient.
pub open spec fn register_shaped(ins: FactoredInstruction, width: int) -> bool {
    match ins {
        FactoredInstruction::ApplyPrecomputedActivePauliRotation(inst) => {
            let kernel = inst.rotation_kernel;
            let xmask = kernel.action.xmask;
            &&& kernel.action.nqubits == width
            &&& !kernel.is_diagonal
            &&& kernel.uniform_imag_pairs
            &&& 0 < xmask <= 15
            &&& kernel.pair_bit == top_of_four(xmask)
        },
        _ => false,
    }
}

/// Whether the kernel mixes every pair of sixteen amplitudes with one imaginary
/// coefficient.
fn is_register_rotation(kernel: &RotationKernel) -> (r: bool)
    ensures
        r == (!kernel.is_diagonal && kernel.uniform_imag_pairs && 0 < kernel.action.xmask <= 15
            && kernel.pair_bit == top_of_four(kernel.action.xmask)),
{
    let xmask: u64 = kernel.action.xmask;
    let top: u32 = if xmask >= 8 {
        3
    } else if xmask >= 4 {
        2
    } else if xmask >= 2 {
        1
    } else {
        0
    };
    !kernel.is_diagonal && kernel.uniform_imag_pairs && xmask != 0 && xmask <= 15 && kernel.pair_bit
        == top
}

/// Applies the run to one shot's amplitudes.
fn run_one_lane<A: Copy, K: ActiveKernels<A>>(
    k: &K,
    instructions: &Vec<FactoredInstruction>,
    first_index: usize,
    run_len: usize,
    rows: &Vec<Vec<u64>>,
    shot: usize,
    lane: Vec<A>,
    Ghost(base): Ghost<spec_fn(int, int) -> bool>,
    Ghost(plan): Ghost<PresampledExpressionPlan>,
    Ghost(model): Ghost<Shot<A>>,
) -> (r: Vec<A>)
    requires
        lawful::<A, K>(k),
        first_index + run_len <= instructions@.len(),
        rows@.len() == run_len,
        lane@ == model.lanes[0],
        forall|o: int|
            0 <= o < run_len ==> row_bit((#[trigger] rows@[o])@, shot as int) == sign_at(
                base,
                plan,
                first_index + o,
                model,
            ),
        forall|j: int|
            first_index <= j < first_index + run_len ==> is_rotation(#[trigger] instructions@[j])
                || is_promotion(instructions@[j]),
    ensures
        r@ == lane_run(k, base, plan, instructions@, first_index as int, run_len as int, model),
        r@.len() == lane@.len() * dimension(
            promotions(instructions@, first_index as int, run_len as int),
        ),
{
    let mut current: Vec<A> = lane;
    let ghost i = first_index as int;
    let ghost len0 = lane@.len() as int;
    let count: usize = instructions.len();
    let mut offset: usize = 0;
    assert(len0 * 1 == len0);
    while offset < run_len
        invariant
            offset <= run_len,
            count == instructions@.len(),
            i == first_index,
            lawful::<A, K>(k),
            first_index + run_len <= instructions@.len(),
            rows@.len() == run_len,
            0 <= promotions(instructions@, i, offset as int),
            forall|o: int|
                0 <= o < run_len ==> row_bit((#[trigger] rows@[o])@, shot as int) == sign_at(
                    base,
                    plan,
                    first_index + o,
                    model,
                ),
            forall|j: int|
                first_index <= j < first_index + run_len ==> is_rotation(#[trigger] instructions@[j])
                    || is_promotion(instructions@[j]),
            current@ == lane_run(k, base, plan, instructions@, i, offset as int, model),
            current@.len() == len0 * dimension(promotions(instructions@, i, offset as int)),
        decreases run_len - offset,
    {
        let sign: bool = batch_bit_at(rows[offset].as_slice(), shot);
        assert(rows@[offset as int]@ == rows@[offset as int]@);
        let ghost p = promotions(instructions@, i, offset as int);
        let ghost m = offset as int + 1;
        proof {
            assert(is_rotation(instructions@[i + offset]) || is_promotion(instructions@[i + offset]));
            assert(promotions(instructions@, i, m) == p + if is_promotion(instructions@[i + m - 1]) {
                1int
            } else {
                0
            });
            assert(len0 * (2 * dimension(p)) == 2 * (len0 * dimension(p))) by (nonlinear_arith);
        }
        match &instructions[first_index + offset] {
            FactoredInstruction::ApplyPrecomputedActivePauliRotation(inst) => {
                let kernel: RotationKernel = inst.rotation_kernel;
                let mixed: Vec<Mix> = rotation_mixes(kernel.action, current.len());
                current = k.rotate(kernel.kernel_angle, sign, &mixed, current);
            },
            FactoredInstruction::PromoteDormantRotation(inst) => {
                current = k.promote(inst.kernel_angle, sign, current);
            },
            _ => {
                assert(false);
            },
        }
        offset += 1;
    }
    current
}

/// Applies a run to every shot that is not dead.
#[verifier::rlimit(40)]
fn apply_run<'a, A: Copy, K: ActiveKernels<A>>(
    k: &K,
    runtime: &mut BatchFactoredExecutorState<A>,
    program: &FactoredInstructionProgram,
    source: &BatchSignSource<'a>,
    first_index: usize,
    promoted_qubits: usize,
    run_len: usize,
    rows: &Vec<Vec<u64>>,
    dead: Option<&[u64]>,
)
    requires
        lawful::<A, K>(k),
        old(runtime).ready(),
        !old(runtime).active_components_enabled,
        first_index + run_len <= program.instructions@.len(),
        promoted_qubits == promotions(program.instructions@, first_index as int, run_len as int),
        promoted_qubits <= old(runtime).ndormant,
        dimension(old(runtime).k + promoted_qubits) <= old(runtime).active_stride,
        run_fits(
            source.plan_of(),
            program.instructions@,
            first_index as int,
            run_len as int,
            old(runtime).block(source.first()),
        ),
        rows@.len() == run_len,
        forall|o: int|
            0 <= o < run_len ==> row_bits((#[trigger] rows@[o])@, old(runtime).active_shots as int)
                == signs(
                source.base(),
                source.plan_of(),
                first_index + o,
                old(runtime).block(source.first()),
            ),
    ensures
        final(runtime).ready(),
        final(runtime).same_frame(old(runtime)),
        final(runtime).active_shots == old(runtime).active_shots,
        agrees_alive(
            final(runtime).block(source.first()),
            fused(
                k,
                source.base(),
                source.plan_of(),
                program.instructions@,
                first_index as int,
                run_len as int,
                old(runtime).block(source.first()),
            ),
            dead_view(dead),
        ),
{
    let ghost first = source.first();
    let ghost b = old(runtime).block(first);
    let ghost ins = program.instructions@;
    let ghost base = source.base();
    let ghost plan = source.plan_of();
    let ghost i = first_index as int;
    let ghost n = run_len as int;
    proof {
        crate::executor::lemma_dimension_grows(
            old(runtime).k as int,
            old(runtime).k + promoted_qubits,
        );
        crate::executor::lemma_dimension_sum(old(runtime).k as int, promoted_qubits as int);
        assert forall|j: int| i <= j < i + n implies is_rotation(#[trigger] ins[j]) || is_promotion(
            ins[j],
        ) by {
            assert(fits_at(plan, ins, i, j, b));
        }
    }
    let dim: usize = match active_length(runtime.k) {
        Ok(dim) => dim,
        Err(_) => {
            assert(false);
            0
        },
    };
    let layout: LaneLayout = LaneLayout {
        shot_major: runtime.dense_shot_major_active,
        stride: runtime.active_stride,
        pitch: runtime.active_pitch,
    };
    let shots: usize = runtime.active_shots;
    let ghost start = runtime.active@;
    let ghost wide = dimension(old(runtime).k + promoted_qubits);
    let mut store: Vec<A> = Vec::new();
    std::mem::swap(&mut store, &mut runtime.active);
    let mut shot: usize = 0;
    while shot < shots
        invariant
            shot <= shots,
            lawful::<A, K>(k),
            layout == old(runtime).layout(0),
            layout.fits(store@),
            store@.len() == start.len(),
            start == old(runtime).active@,
            shots <= layout.pitch,
            shots == old(runtime).active_shots,
            b == old(runtime).block(first),
            ins == program.instructions@,
            i == first_index,
            n == run_len,
            !old(runtime).active_components_enabled,
            dim == dimension(old(runtime).k as int),
            dim <= layout.stride,
            wide <= layout.stride,
            wide == dim * dimension(promoted_qubits as int),
            promoted_qubits == promotions(ins, i, n),
            first_index + run_len <= ins.len(),
            rows@.len() == run_len,
            base == source.base(),
            plan == source.plan_of(),
            first == source.first(),
            forall|o: int|
                0 <= o < run_len ==> row_bits((#[trigger] rows@[o])@, shots as int) == signs(
                    base,
                    plan,
                    first_index + o,
                    b,
                ),
            forall|j: int| i <= j < i + n ==> is_rotation(#[trigger] ins[j]) || is_promotion(ins[j]),
            forall|s: int|
                shot <= s < shots ==> #[trigger] layout.lane(store@, s, dim as int) == layout.lane(
                    start,
                    s,
                    dim as int,
                ),
            forall|s: int|
                0 <= s < shot && !is_dead(dead_view(dead), s) ==> #[trigger] layout.lane(
                    store@,
                    s,
                    wide,
                ) == lane_run(k, base, plan, ins, i, n, b.shots[s]),
        decreases shots - shot,
    {
        if !shot_is_dead(dead, shot) {
            let lane: Vec<A> = read_lane(&store, layout, shot, dim);
            let ghost model = b.shots[shot as int];
            proof {
                assert(model.lanes[0] == layout.lane(start, shot as int, dim as int));
                assert forall|o: int| 0 <= o < run_len implies row_bit(
                    (#[trigger] rows@[o])@,
                    shot as int,
                ) == sign_at(base, plan, first_index + o, model) by {
                    let row = row_bits(rows@[o]@, shots as int);
                    assert(row[shot as int] == signs(base, plan, first_index + o, b)[shot as int]);
                }
            }
            let turned: Vec<A> = run_one_lane(
                k,
                &program.instructions,
                first_index,
                run_len,
                rows,
                shot,
                lane,
                Ghost(base),
                Ghost(plan),
                Ghost(model),
            );
            write_lane(&mut store, layout, shot, &turned);
        }
        shot += 1;
    }
    std::mem::swap(&mut store, &mut runtime.active);
    runtime.k += promoted_qubits;
    runtime.ndormant -= promoted_qubits;
    proof {
        let x = runtime.block(first);
        let y = fused(k, base, plan, ins, i, n, b);
        let lanes = Seq::new(b.shots.len(), |s: int| runtime.lane(s, 0));
        lemma_block_lanes(old(runtime), runtime, 0, lanes, first);
        assert(x.parts =~= y.parts);
        assert forall|s: int| 0 <= s < x.shots.len() && !is_dead(dead_view(dead), s) implies
            #[trigger] x.shots[s] == y.shots[s] by {
            assert(runtime.lane(s, 0) == layout.lane(runtime.active@, s, wide));
            assert(lanes[s] == lane_run(k, base, plan, ins, i, n, b.shots[s]));
        }
        assert(x == (Block { shots: x.shots, ..y }));
    }
}

/// Evaluates the signs of a run, one row for every instruction. The rotations of a
/// run must have the width that they will meet.
fn eval_run<'a, A: Copy>(
    runtime: &BatchFactoredExecutorState<A>,
    program: &FactoredInstructionProgram,
    source: &BatchSignSource<'a>,
    first_index: usize,
    run_len: usize,
    checks_width: bool,
) -> (r: core::result::Result<Vec<Vec<u64>>, (usize, TicitError)>)
    requires
        runtime.ready(),
        source.serves(runtime),
        first_index + run_len <= program.instructions@.len(),
        checks_width ==> forall|j: int|
            first_index <= j < first_index + run_len ==> is_rotation(
                #[trigger] program.instructions@[j],
            ),
    ensures
        match r {
            Ok(rows) => {
                &&& rows@.len() == run_len
                &&& forall|o: int|
                    0 <= o < run_len ==> {
                        &&& sign_refusal(
                            source.plan_of(),
                            first_index + o,
                            runtime.block(source.first()),
                        ) is None
                        &&& row_bits((#[trigger] rows@[o])@, runtime.active_shots as int) == signs(
                            source.base(),
                            source.plan_of(),
                            first_index + o,
                            runtime.block(source.first()),
                        )
                    }
                &&& checks_width ==> forall|j: int|
                    first_index <= j < first_index + run_len ==> has_width(
                        #[trigger] program.instructions@[j],
                        runtime.k as int,
                    )
            },
            Err((at, e)) => {
                &&& at < run_len
                &&& forall|o: int|
                    0 <= o < at ==> #[trigger] sign_refusal(
                        source.plan_of(),
                        first_index + o,
                        runtime.block(source.first()),
                    ) is None
                &&& checks_width ==> forall|j: int|
                    first_index <= j < first_index + at ==> has_width(
                        #[trigger] program.instructions@[j],
                        runtime.k as int,
                    )
                &&& ({
                    ||| sign_refusal(
                        source.plan_of(),
                        first_index + at,
                        runtime.block(source.first()),
                    ) == Some(e@)
                    ||| checks_width && !has_width(
                        program.instructions@[first_index + at],
                        runtime.k as int,
                    ) && e@ == "rotation kernel dimension does not match batch active state"@
                })
            },
        },
{
    let mut rows: Vec<Vec<u64>> = Vec::new();
    let ghost b = runtime.block(source.first());
    let ghost plan = source.plan_of();
    let count: usize = program.instructions.len();
    let mut offset: usize = 0;
    while offset < run_len
        invariant
            offset <= run_len,
            count == program.instructions@.len(),
            rows@.len() == offset,
            runtime.ready(),
            source.serves(runtime),
            b == runtime.block(source.first()),
            plan == source.plan_of(),
            first_index + run_len <= program.instructions@.len(),
            checks_width ==> forall|j: int|
                first_index <= j < first_index + run_len ==> is_rotation(
                    #[trigger] program.instructions@[j],
                ),
            forall|o: int|
                0 <= o < offset ==> #[trigger] sign_refusal(plan, first_index + o, b) is None,
            forall|o: int|
                0 <= o < offset ==> row_bits((#[trigger] rows@[o])@, runtime.active_shots as int)
                    == signs(source.base(), plan, first_index + o, b),
            checks_width ==> forall|j: int|
                first_index <= j < first_index + offset ==> has_width(
                    #[trigger] program.instructions@[j],
                    runtime.k as int,
                ),
        decreases run_len - offset,
    {
        if checks_width {
            assert(is_rotation(program.instructions@[first_index + offset]));
            match &program.instructions[first_index + offset] {
                FactoredInstruction::ApplyPrecomputedActivePauliRotation(inst) => {
                    if inst.rotation_kernel.action.nqubits != runtime.k {
                        return Err(
                            (
                                offset,
                                TicitError::new(
                                    "rotation kernel dimension does not match batch active state",
                                ),
                            ),
                        );
                    }
                },
                _ => {
                    assert(false);
                },
            }
        }
        let mut row: Vec<u64> = Vec::new();
        match source.eval(first_index + offset, runtime, &mut row) {
            Err(e) => {
                return Err((offset, e));
            },
            Ok(_) => {},
        }
        rows.push(row);
        offset += 1;
    }
    proof {
        assert forall|o: int| 0 <= o < run_len implies {
            &&& sign_refusal(plan, first_index + o, b) is None
            &&& row_bits((#[trigger] rows@[o])@, runtime.active_shots as int) == signs(
                source.base(),
                plan,
                first_index + o,
                b,
            )
        } by {
            assert(sign_refusal(plan, first_index + o, b) is None);
        }
    }
    Ok(rows)
}

/// The rotation has this width.
pub open spec fn has_width(ins: FactoredInstruction, k: int) -> bool {
    match ins {
        FactoredInstruction::ApplyPrecomputedActivePauliRotation(inst) =>
            inst.rotation_kernel.action.nqubits == k,
        _ => false,
    }
}

proof fn lemma_no_promotions(ins: Seq<FactoredInstruction>, i: int, n: int)
    requires
        forall|j: int| i <= j < i + n ==> is_rotation(#[trigger] ins[j]),
    ensures
        promotions(ins, i, n) == 0,
    decreases n,
{
    if n > 0 {
        assert(is_rotation(ins[i + n - 1]));
        lemma_no_promotions(ins, i, n - 1);
    }
}

proof fn lemma_promotion_prefix(ins: Seq<FactoredInstruction>, i: int, p: int, n: int)
    requires
        0 <= p,
        0 <= n,
        forall|j: int| i <= j < i + p ==> is_promotion(#[trigger] ins[j]),
        forall|j: int| i + p <= j < i + n ==> is_rotation(#[trigger] ins[j]),
    ensures
        promotions(ins, i, n) == if n < p {
            n
        } else {
            p
        },
    decreases n,
{
    if n > 0 {
        if n <= p {
            assert(is_promotion(ins[i + n - 1]));
        } else {
            assert(is_rotation(ins[i + n - 1]));
        }
        lemma_promotion_prefix(ins, i, p, n - 1);
    }
}

/// How many instructions from `first` on make a run of promotions to dimension
/// sixteen with rotations behind them: zero where there is no such run.
pub open spec fn promotion_run_length<A>(
    program: &FactoredInstructionProgram,
    first: int,
    runtime: &BatchFactoredExecutorState<A>,
) -> int {
    let ins = program.instructions@;
    let limit = SHOT_MAJOR_ROTATION_RUN_LIMIT as int;
    let promo = promotion_prefix(ins, first, dimension(runtime.k as int), runtime.ndormant as int);
    let found = rotation_run(ins, first + promo, limit);
    let turns = if found < limit - promo {
        found
    } else {
        limit - promo
    };
    if runtime.active_shots == 0 || runtime.active_stride < 16 || promo == 0 || turns == 0
        || !register_shaped_run(ins, first + promo, turns, runtime.k + promo) {
        0
    } else {
        promo + turns
    }
}

/// The rotations of the run all have the register-resident shape.
pub open spec fn register_shaped_run(
    ins: Seq<FactoredInstruction>,
    from: int,
    n: int,
    width: int,
) -> bool {
    forall|j: int| from <= j < from + n ==> register_shaped(#[trigger] ins[j], width)
}

/// How many instructions from `first` on are executed shot by shot: a run of at
/// least two rotations, or of promotions with rotations behind them.
pub open spec fn run_length<A>(
    program: &FactoredInstructionProgram,
    first: int,
    runtime: &BatchFactoredExecutorState<A>,
) -> int {
    let found = rotation_run(program.instructions@, first, SHOT_MAJOR_ROTATION_RUN_LIMIT as int);
    if is_promotion(program.instructions@[first]) {
        promotion_run_length(program, first, runtime)
    } else if runtime.active_shots == 0 || found <= 1 {
        0
    } else {
        found
    }
}

/// Executes a run that was found: `promo_len` promotions and then rotations. The
/// width of the rotations is tested here where nothing is promoted.
#[verifier::rlimit(60)]
fn execute_run<'a, A: Copy, K: ActiveKernels<A>>(
    k: &K,
    runtime: &mut BatchFactoredExecutorState<A>,
    program: &FactoredInstructionProgram,
    source: &BatchSignSource<'a>,
    first_index: usize,
    promo_len: usize,
    run_len: usize,
    dead: Option<&[u64]>,
) -> (r: Result<usize>)
    requires
        lawful::<A, K>(k),
        old(runtime).ready(),
        !old(runtime).active_components_enabled,
        source.serves(old(runtime)),
        0 < run_len,
        promo_len <= run_len,
        promo_len <= old(runtime).ndormant,
        first_index + run_len <= program.instructions@.len(),
        promo_len > 0 ==> dimension(old(runtime).k + promo_len) <= old(runtime).active_stride,
        forall|j: int|
            first_index <= j < first_index + promo_len ==> is_promotion(
                #[trigger] program.instructions@[j],
            ),
        forall|j: int|
            first_index + promo_len <= j < first_index + run_len ==> is_rotation(
                #[trigger] program.instructions@[j],
            ),
        promo_len > 0 ==> forall|j: int|
            first_index + promo_len <= j < first_index + run_len ==> has_width(
                #[trigger] program.instructions@[j],
                old(runtime).k + promo_len,
            ),
    ensures
        final(runtime).same_frame(old(runtime)),
        final(runtime).active_shots == old(runtime).active_shots,
        match r {
            Ok(done) => {
                &&& first_index + done <= program.instructions@.len()
                &&& done == run_len
                &&& done == 0 ==> *final(runtime) == *old(runtime)
                &&& done > 0 ==> {
                    &&& final(runtime).ready()
                    &&& forall|j: int|
                        first_index <= j < first_index + done ==> is_rotation(
                            #[trigger] program.instructions@[j],
                        ) || is_promotion(program.instructions@[j])
                    &&& run_fits(
                        source.plan_of(),
                        program.instructions@,
                        first_index as int,
                        done as int,
                        old(runtime).block(source.first()),
                    )
                    &&& agrees_alive(
                        final(runtime).block(source.first()),
                        fused(
                            k,
                            source.base(),
                            source.plan_of(),
                            program.instructions@,
                            first_index as int,
                            done as int,
                            old(runtime).block(source.first()),
                        ),
                        dead_view(dead),
                    )
                }
            },
            Err(e) => turning_stops(
                k,
                source.base(),
                source.plan_of(),
                program,
                first_index as int,
                old(runtime).block(source.first()),
                e@,
            ),
        },
{
    let ghost ins = program.instructions@;
    let ghost i = first_index as int;
    let ghost first = source.first();
    let ghost b = old(runtime).block(first);
    let ghost plan = source.plan_of();
    let ghost base = source.base();
    proof {
        assert forall|j: int| i <= j < i + run_len implies is_rotation(#[trigger] ins[j])
            || is_promotion(ins[j]) by {}
        assert forall|n: int| 0 <= n <= run_len implies #[trigger] promotions(ins, i, n) == if n
            < promo_len {
            n
        } else {
            promo_len as int
        } by {
            if promo_len > 0 {
                lemma_promotion_prefix(ins, i, promo_len as int, n);
            } else {
                lemma_no_promotions(ins, i, n);
            }
        }
    }
    match eval_run(runtime, program, source, first_index, run_len, promo_len == 0) {
        Err((at, e)) => {
            proof {
                let n = at as int;
                assert(run_fits(plan, ins, i, n, b)) by {
                    assert forall|j: int| i <= j < i + n implies #[trigger] fits_at(
                        plan,
                        ins,
                        i,
                        j,
                        b,
                    ) by {
                        let o = j - i;
                        assert(sign_refusal(plan, first_index + o, b) is None);
                        lemma_fits(old(runtime), program, i, j, promo_len as int, run_len as int, first);
                    }
                }
                law_fused_run_is_the_run(k, base, plan, program, i, n, b);
                let f = fused(k, base, plan, ins, i, n, b);
                assert(sign_refusal(plan, i + n, f) == sign_refusal(plan, i + n, b));
                assert(is_rotation(ins[i + n]) || is_promotion(ins[i + n]));
                assert(stops_at(k, base, plan, program, i, i + n, b, e@));
                assert(turning_stops(k, base, plan, program, i, b, e@));
            }
            Err(e)
        },
        Ok(rows) => {
            proof {
                assert(run_fits(plan, ins, i, run_len as int, b)) by {
                    assert forall|j: int| i <= j < i + run_len implies #[trigger] fits_at(
                        plan,
                        ins,
                        i,
                        j,
                        b,
                    ) by {
                        let o = j - i;
                        assert(rows@[o]@ == rows@[o]@);
                        lemma_fits(old(runtime), program, i, j, promo_len as int, run_len as int, first);
                    }
                }
                assert(promotions(ins, i, run_len as int) == promo_len);
            }
            apply_run(k, runtime, program, source, first_index, promo_len, run_len, &rows, dead);
            Ok(run_len)
        },
    }
}

/// Executes promotions to dimension sixteen and the rotations behind them shot by
/// shot. Gives the number of instructions done: zero where there is no such run,
/// and then nothing is changed.
pub fn execute_shot_major_promotion_rotation_run<'a, A: Copy, K: ActiveKernels<A>>(
    k: &K,
    runtime: &mut BatchFactoredExecutorState<A>,
    program: &FactoredInstructionProgram,
    source: &BatchSignSource<'a>,
    first_index: usize,
    dead: Option<&[u64]>,
) -> (r: Result<usize>)
    requires
        lawful::<A, K>(k),
        old(runtime).ready(),
        !old(runtime).active_components_enabled,
        source.serves(old(runtime)),
        first_index < program.instructions@.len(),
    ensures
        final(runtime).same_frame(old(runtime)),
        final(runtime).active_shots == old(runtime).active_shots,
        match r {
            Ok(done) => {
                &&& first_index + done <= program.instructions@.len()
                &&& done == promotion_run_length(program, first_index as int, old(runtime))
                &&& done == 0 ==> *final(runtime) == *old(runtime)
                &&& done > 0 ==> {
                    &&& final(runtime).ready()
                    &&& forall|j: int|
                        first_index <= j < first_index + done ==> is_rotation(
                            #[trigger] program.instructions@[j],
                        ) || is_promotion(program.instructions@[j])
                    &&& run_fits(
                        source.plan_of(),
                        program.instructions@,
                        first_index as int,
                        done as int,
                        old(runtime).block(source.first()),
                    )
                    &&& agrees_alive(
                        final(runtime).block(source.first()),
                        fused(
                            k,
                            source.base(),
                            source.plan_of(),
                            program.instructions@,
                            first_index as int,
                            done as int,
                            old(runtime).block(source.first()),
                        ),
                        dead_view(dead),
                    )
                }
            },
            Err(e) => turning_stops(
                k,
                source.base(),
                source.plan_of(),
                program,
                first_index as int,
                old(runtime).block(source.first()),
                e@,
            ),
        },
{
    if runtime.active_shots == 0 || runtime.active_stride < 16 {
        return Ok(0);
    }
    let dim: usize = match active_length(runtime.k) {
        Ok(dim) => dim,
        Err(_) => {
            assert(false);
            return Ok(0);
        },
    };
    let promo_len: usize = shot_major_promotion_prefix_length(
        program,
        first_index,
        dim,
        runtime.ndormant,
    );
    if promo_len == 0 {
        return Ok(0);
    }
    let count: usize = program.instructions.len();
    assert(first_index + promo_len <= count);
    let found: usize = shot_major_rotation_run_length(program, first_index + promo_len);
    let limit: usize = SHOT_MAJOR_ROTATION_RUN_LIMIT - promo_len;
    let rot_len: usize = if found < limit {
        found
    } else {
        limit
    };
    if rot_len == 0 {
        return Ok(0);
    }
    if !register_run(program, first_index + promo_len, rot_len, runtime.k + promo_len) {
        return Ok(0);
    }
    proof {
        lemma_to_sixteen(runtime.k as int, promo_len as int);
        assert forall|j: int|
            first_index + promo_len <= j < first_index + promo_len + rot_len implies has_width(
            #[trigger] program.instructions@[j],
            runtime.k + promo_len,
        ) by {
            assert(register_shaped(program.instructions@[j], runtime.k + promo_len));
        }
    }
    execute_run(
        k,
        runtime,
        program,
        source,
        first_index,
        promo_len,
        promo_len + rot_len,
        dead,
    )
}

/// Detects a run of rotations, or of promotions to dimension sixteen with rotations
/// behind them, and executes it shot by shot. Gives the number of instructions
/// done: zero where there is no such run, and then nothing is changed.
pub fn execute_shot_major_rotation_run<'a, A: Copy, K: ActiveKernels<A>>(
    k: &K,
    runtime: &mut BatchFactoredExecutorState<A>,
    program: &FactoredInstructionProgram,
    source: &BatchSignSource<'a>,
    first_index: usize,
    dead: Option<&[u64]>,
) -> (r: Result<usize>)
    requires
        lawful::<A, K>(k),
        old(runtime).ready(),
        !old(runtime).active_components_enabled,
        source.serves(old(runtime)),
        first_index < program.instructions@.len(),
    ensures
        final(runtime).same_frame(old(runtime)),
        final(runtime).active_shots == old(runtime).active_shots,
        match r {
            Ok(done) => {
                &&& first_index + done <= program.instructions@.len()
                &&& done == run_length(program, first_index as int, old(runtime))
                &&& done == 0 ==> *final(runtime) == *old(runtime)
                &&& done > 0 ==> {
                    &&& final(runtime).ready()
                    &&& forall|j: int|
                        first_index <= j < first_index + done ==> is_rotation(
                            #[trigger] program.instructions@[j],
                        ) || is_promotion(program.instructions@[j])
                    &&& run_fits(
                        source.plan_of(),
                        program.instructions@,
                        first_index as int,
                        done as int,
                        old(runtime).block(source.first()),
                    )
                    &&& agrees_alive(
                        final(runtime).block(source.first()),
                        fused(
                            k,
                            source.base(),
                            source.plan_of(),
                            program.instructions@,
                            first_index as int,
                            done as int,
                            old(runtime).block(source.first()),
                        ),
                        dead_view(dead),
                    )
                }
            },
            Err(e) => turning_stops(
                k,
                source.base(),
                source.plan_of(),
                program,
                first_index as int,
                old(runtime).block(source.first()),
                e@,
            ),
        },
{
    match &program.instructions[first_index] {
        FactoredInstruction::PromoteDormantRotation(_) => {
            return execute_shot_major_promotion_rotation_run(
                k,
                runtime,
                program,
                source,
                first_index,
                dead,
            );
        },
        _ => {},
    }
    if runtime.active_shots == 0 {
        return Ok(0);
    }
    let found: usize = shot_major_rotation_run_length(program, first_index);
    if found <= 1 {
        return Ok(0);
    }
    execute_run(k, runtime, program, source, first_index, 0, found, dead)
}

/// The widths and the room along a run.
proof fn lemma_fits<A: Copy>(
    runtime: &BatchFactoredExecutorState<A>,
    program: &FactoredInstructionProgram,
    i: int,
    j: int,
    promo: int,
    n: int,
    first: int,
)
    requires
        runtime.ready(),
        !runtime.active_components_enabled,
        i <= j < i + n,
        0 <= promo <= runtime.ndormant,
        promotions(program.instructions@, i, j - i) == if j - i < promo {
            j - i
        } else {
            promo
        },
        promo > 0 ==> dimension(runtime.k + promo) <= runtime.active_stride,
        forall|m: int| i <= m < i + promo ==> is_promotion(#[trigger] program.instructions@[m]),
        j >= i + promo ==> has_width(program.instructions@[j], runtime.k + promo),
    ensures
        match program.instructions@[j] {
            FactoredInstruction::ApplyPrecomputedActivePauliRotation(inst) =>
                inst.rotation_kernel.action.nqubits == runtime.block(first).parts[0].k + promotions(
                    program.instructions@,
                    i,
                    j - i,
                ),
            FactoredInstruction::PromoteDormantRotation(_) => promotions(
                program.instructions@,
                i,
                j - i,
            ) < runtime.block(first).ndormant && 2 * dimension(
                runtime.block(first).parts[0].k + promotions(program.instructions@, i, j - i),
            ) <= runtime.block(first).parts[0].stride,
            _ => false,
        },
{
    let b = runtime.block(first);
    assert(b.parts[0] == runtime.part(0));
    if j < i + promo {
        assert(is_promotion(program.instructions@[j]));
        let p = j - i;
        assert(2 * dimension(runtime.k + p) == dimension(runtime.k + p + 1));
        crate::executor::lemma_dimension_grows(runtime.k + p + 1, runtime.k + promo);
    }
}

/// The prefix carries the dimension to sixteen.
proof fn lemma_to_sixteen(k: int, promo: int)
    requires
        0 <= k,
        promo > 0,
        promo == promotions_to_sixteen(dimension(k)),
    ensures
        dimension(k + promo) == 16,
{
    reveal_with_fuel(dimension, 5);
    if dimension(k) == 2 {
        assert(dimension(k + 3) == 2 * dimension(k + 2));
        assert(dimension(k + 2) == 2 * dimension(k + 1));
        assert(dimension(k + 1) == 2 * dimension(k));
    } else if dimension(k) == 4 {
        assert(dimension(k + 2) == 2 * dimension(k + 1));
        assert(dimension(k + 1) == 2 * dimension(k));
    } else {
        assert(dimension(k + 1) == 2 * dimension(k));
    }
}

/// Whether every rotation of the run fits the register-resident shape.
fn register_run(program: &FactoredInstructionProgram, from: usize, len: usize, width: usize) -> (r: bool)
    requires
        from + len <= program.instructions@.len(),
    ensures
        r == register_shaped_run(program.instructions@, from as int, len as int, width as int),
{
    let count: usize = program.instructions.len();
    let mut offset: usize = 0;
    while offset < len
        invariant
            offset <= len,
            count == program.instructions@.len(),
            from + len <= program.instructions@.len(),
            forall|j: int|
                from <= j < from + offset ==> register_shaped(
                    #[trigger] program.instructions@[j],
                    width as int,
                ),
        decreases len - offset,
    {
        match &program.instructions[from + offset] {
            FactoredInstruction::ApplyPrecomputedActivePauliRotation(inst) => {
                if inst.rotation_kernel.action.nqubits != width || !is_register_rotation(
                    &inst.rotation_kernel,
                ) {
                    assert(!register_shaped(program.instructions@[from + offset], width as int));
                    return false;
                }
            },
            _ => {
                assert(!register_shaped(program.instructions@[from + offset], width as int));
                return false;
            },
        }
        offset += 1;
    }
    true
}

} // verus!
