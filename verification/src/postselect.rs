//! Postselection on selected detectors. A detector with an unexpected outcome marks
//! its shots dead and leaves the amplitudes alone. Dead shots are moved out lazily:
//! always before an instruction that draws, so that draws see live shots only, and
//! otherwise once enough of the batch is dead to be worth the move.
use vstd::prelude::*;
use crate::bits::{row_bit, row_bits, word_bit, words_for_bits};
use crate::compaction::{entry, survivors};
use crate::driver::executable;
use crate::errors::{Result, TicitError};
use crate::executor::{resize_list, BatchFactoredExecutorState};
use crate::exogenous::live_word_mask_for_shots;
use crate::follow::{
    follows, lemma_agrees_trans, lemma_discard_follows, lemma_drawing_pairwise, lemma_live_all,
    lemma_live_full, lemma_live_kept, lemma_live_list, lemma_pure_follows, lemma_run_follows,
    lemma_select_stops_later, lemma_stops_follows, live_list, pairwise, records_counted, select_halts,
    select_stops,
};
use crate::kernels::{lawful, ActiveKernels};
use crate::lanes::{dead_view, is_dead};
use crate::model::{
    detector_outcomes, detector_refusal, promote, rotate, run, signs, step, Block, Shot,
};
use crate::parts::{promote_whole_lanes, rotate_part_lanes};
use crate::planes::{lemma_plane_index, lemma_plane_update, plane_bit};
use crate::postselect_model::{
    accepted, agrees, discard_step, discards_at, expected_at, is_pure, lemma_known_step,
    lemma_select_split, residuals_within, select_run, select_step, single_assignment, unclaimed,
};
use crate::presampled_expression::{
    last_uses, PresampledExpressionBlock, PresampledExpressionPlan,
};
use crate::program::{ActiveComponentStepKind, FactoredInstruction, FactoredInstructionProgram};
use crate::refine::{lemma_block_detector, lemma_block_lanes};
use crate::runs::{
    agrees_alive, execute_shot_major_rotation_run, fused, is_promotion, is_rotation, is_whole,
    law_fused_run_is_the_run, stops_at, turning,
};
use crate::runtime::{
    detector_outcome_bits, execute_batch_component_instruction, execute_batch_instruction,
};
use crate::signs::{
    expression_slice_word, lemma_has_row, residuals_wf, table_bits, BatchSignSource,
};
use crate::survive::{
    compact_surviving_shots, compacted, condition_last_uses, detectors_in_range,
    expression_used_from, measurement_record_last_uses, record_used_from, retained_by,
    retained_in_range, used_from,
};
use crate::symbols::{batch_bit_at, write_batch_detector_record};

verus! {

broadcast use crate::bits::group_word_bits;

/// Before expensive instructions, dead shots are moved out already once this small a
/// part of the batch is dead.
pub const EXPENSIVE_PURE_COMPACTION_DENOMINATOR: usize = 64;

/// Reusable working memory of postselection.
#[derive(Debug)]
pub struct BatchDetectorPostselectionScratch {
    pub dead_bits: Vec<u64>,
    pub keep_bits: Vec<u64>,
    /// A copy of the expression table for the block at hand, compacted along with the
    /// shots: `[expression * batch_words + word]`.
    pub expression_words: Vec<u64>,
    pub condition_last_use_by_index: Vec<i32>,
    pub record_last_use_by_index: Vec<i32>,
    pub dead_count: usize,
}

impl Default for BatchDetectorPostselectionScratch {
    fn default() -> (r: Self)
        ensures
            r.dead_bits@.len() == 0,
            r.keep_bits@.len() == 0,
            r.expression_words@.len() == 0,
            r.condition_last_use_by_index@.len() == 0,
            r.record_last_use_by_index@.len() == 0,
            r.dead_count == 0,
    {
        BatchDetectorPostselectionScratch {
            dead_bits: Vec::new(),
            keep_bits: Vec::new(),
            expression_words: Vec::new(),
            condition_last_use_by_index: Vec::new(),
            record_last_use_by_index: Vec::new(),
            dead_count: 0,
        }
    }
}

#[derive(Clone, Copy, Debug, PartialEq, Eq, Structural)]
pub struct BatchDetectorPostselectionResult {
    pub discarded: usize,
    pub accepted: usize,
}

impl Default for BatchDetectorPostselectionResult {
    fn default() -> (r: Self)
        ensures
            r.discarded == 0,
            r.accepted == 0,
    {
        BatchDetectorPostselectionResult { discarded: 0, accepted: 0 }
    }
}

#[derive(Clone, Debug)]
pub struct BatchDetectorPostselectionOptions<'a> {
    /// Dead shots are moved out once at least one in this many shots is dead.
    pub mask_dead_shots_min_fraction_denominator: usize,
    /// Groups of records that stay to the end of the program.
    pub retained_record_uses: Option<&'a [Vec<i32>]>,
    /// The outcomes that the detectors have without noise.
    pub expected_detectors: &'a [u8],
}

impl<'a> BatchDetectorPostselectionOptions<'a> {
    /// The retained groups.
    pub open spec fn retained(&self) -> Seq<Vec<i32>> {
        match self.retained_record_uses {
            Some(groups) => groups@,
            None => Seq::empty(),
        }
    }
}

impl<'a> Default for BatchDetectorPostselectionOptions<'a> {
    fn default() -> (r: Self)
        ensures
            r.mask_dead_shots_min_fraction_denominator == 2,
            r.retained_record_uses is None,
            r.expected_detectors@.len() == 0,
    {
        BatchDetectorPostselectionOptions {
            mask_dead_shots_min_fraction_denominator: 2,
            retained_record_uses: None,
            expected_detectors: &[],
        }
    }
}

// ---------------------------------------------------------------------------
// When to move dead shots out
// ---------------------------------------------------------------------------
/// Whether the instruction may run on dead shots: it draws nothing.
pub fn instruction_is_pure_over_dead(instruction: &FactoredInstruction) -> (r: bool)
    ensures
        r == is_pure(*instruction),
{
    match instruction {
        FactoredInstruction::MeasurePrecomputedActivePauli(_) => false,
        FactoredInstruction::IntroduceDormantMeasurementBranch(_) => false,
        _ => true,
    }
}

pub open spec fn is_expensive(ins: FactoredInstruction) -> bool {
    match ins {
        FactoredInstruction::RecordMeasurement(_) => false,
        FactoredInstruction::RecordDetector(_) => false,
        _ => true,
    }
}

/// Whether the instruction wastes work on dead shots.
pub fn instruction_is_expensive_over_dead(instruction: &FactoredInstruction) -> (r: bool)
    ensures
        r == is_expensive(*instruction),
{
    match instruction {
        FactoredInstruction::RecordMeasurement(_) => false,
        FactoredInstruction::RecordDetector(_) => false,
        _ => true,
    }
}

/// The denominator that holds for an instruction.
pub open spec fn denominator_for(ins: FactoredInstruction, denominator: int) -> int {
    let at_least = if is_expensive(ins) {
        EXPENSIVE_PURE_COMPACTION_DENOMINATOR as int
    } else {
        1
    };
    if denominator < at_least {
        at_least
    } else {
        denominator
    }
}

/// Whether dead shots are moved out before the instruction. Where every shot has its
/// amplitudes in one piece, dead shots are skipped instead.
pub open spec fn moves_dead_before(
    ins: FactoredInstruction,
    shots: int,
    dead: int,
    denominator: int,
    skips_dead: bool,
) -> bool {
    &&& shots != 0
    &&& dead != 0
    &&& !is_pure(ins) || (!skips_dead && dead * denominator_for(ins, denominator) >= shots)
}

/// Whether dead shots are moved out before the instruction.
pub fn should_compact_dead_before_instruction<'a, A: Copy>(
    runtime: &BatchFactoredExecutorState<A>,
    dead_count: usize,
    options: &BatchDetectorPostselectionOptions<'a>,
    instruction: &FactoredInstruction,
) -> (r: bool)
    ensures
        r == moves_dead_before(
            *instruction,
            runtime.active_shots as int,
            dead_count as int,
            options.mask_dead_shots_min_fraction_denominator as int,
            runtime.dense_shot_major_active && !runtime.active_components_enabled,
        ),
{
    if runtime.active_shots == 0 || dead_count == 0 {
        return false;
    }
    if !instruction_is_pure_over_dead(instruction) {
        return true;
    }
    if runtime.dense_shot_major_active && !runtime.active_components_enabled {
        return false;
    }
    let mut denominator: usize = options.mask_dead_shots_min_fraction_denominator;
    if denominator < 1 {
        denominator = 1;
    }
    if instruction_is_expensive_over_dead(instruction) {
        if denominator < EXPENSIVE_PURE_COMPACTION_DENOMINATOR {
            denominator = EXPENSIVE_PURE_COMPACTION_DENOMINATOR;
        }
    }
    assert(dead_count * denominator <= u128::MAX) by (nonlinear_arith)
        requires
            0 <= dead_count <= 0xffff_ffff_ffff_ffff,
            0 <= denominator <= 0xffff_ffff_ffff_ffff,
    ;
    (dead_count as u128) * (denominator as u128) >= runtime.active_shots as u128
}

// ---------------------------------------------------------------------------
// Marking
// ---------------------------------------------------------------------------
proof fn lemma_live_ext(a: Seq<u64>, b: Seq<u64>, n: int)
    requires
        forall|s: int| 0 <= s < n ==> #[trigger] row_bit(a, s) == row_bit(b, s),
    ensures
        live_list(a, n) == live_list(b, n),
    decreases n,
{
    if n > 0 {
        lemma_live_ext(a, b, n - 1);
        assert(row_bit(a, n - 1) == row_bit(b, n - 1));
    }
}

/// Marks the shots whose outcome is not the expected one, and gives how many of
/// them were alive.
pub fn mark_dead_from_detector_bits(
    dead_bits: &mut Vec<u64>,
    active_shots: usize,
    detector_bits: &[u64],
    expected: bool,
) -> (r: usize)
    requires
        words_for_bits(active_shots as int) <= old(dead_bits)@.len(),
    ensures
        final(dead_bits)@.len() == old(dead_bits)@.len(),
        forall|s: int|
            0 <= s < active_shots ==> #[trigger] row_bit(final(dead_bits)@, s) == (row_bit(
                old(dead_bits)@,
                s,
            ) || row_bit(detector_bits@, s) != expected),
        r == live_list(old(dead_bits)@, active_shots as int).len() - live_list(
            final(dead_bits)@,
            active_shots as int,
        ).len(),
{
    let ghost start = dead_bits@;
    let mut discarded: usize = 0;
    let mut shot: usize = 0;
    while shot < active_shots
        invariant
            shot <= active_shots,
            start == old(dead_bits)@,
            dead_bits@.len() == start.len(),
            words_for_bits(active_shots as int) <= start.len(),
            forall|s: int|
                0 <= s < shot ==> #[trigger] row_bit(dead_bits@, s) == (row_bit(start, s) || row_bit(
                    detector_bits@,
                    s,
                ) != expected),
            forall|s: int| shot <= s ==> #[trigger] row_bit(dead_bits@, s) == row_bit(start, s),
            discarded == live_list(start, shot as int).len() - live_list(
                dead_bits@,
                shot as int,
            ).len(),
            discarded <= shot,
        decreases active_shots - shot,
    {
        let ghost before = dead_bits@;
        if batch_bit_at(detector_bits, shot) != expected && !batch_bit_at(dead_bits.as_slice(), shot) {
            let word: usize = shot / 64;
            let value: u64 = dead_bits[word] | (1u64 << ((shot % 64) as u64));
            dead_bits.set(word, value);
            discarded += 1;
            proof {
                assert forall|s: int| 0 <= s implies #[trigger] row_bit(dead_bits@, s) == (s == shot
                    || row_bit(before, s)) by {
                    if s < 64 * before.len() {
                        crate::bits::lemma_row_bit_update(before, word as int, value, s);
                    }
                    if s / 64 == word {
                        assert(word_bit(1u64 << ((shot % 64) as u64), s % 64) == (s % 64 == shot % 64));
                    }
                }
            }
        }
        proof {
            lemma_live_ext(before, dead_bits@, shot as int);
            assert forall|s: int| 0 <= s < shot + 1 implies #[trigger] row_bit(dead_bits@, s) == (
            row_bit(start, s) || row_bit(detector_bits@, s) != expected) by {
                if s < shot {
                    assert(row_bit(before, s) == (row_bit(start, s) || row_bit(detector_bits@, s)
                        != expected));
                }
            }
        }
        shot += 1;
    }
    discarded
}

// ---------------------------------------------------------------------------
// Moving out
// ---------------------------------------------------------------------------
/// Clears every bit.
fn clear_bits(bits: &mut Vec<u64>)
    ensures
        final(bits)@.len() == old(bits)@.len(),
        forall|s: int| 0 <= s ==> !#[trigger] row_bit(final(bits)@, s),
{
    let n: usize = bits.len();
    let mut word: usize = 0;
    while word < n
        invariant
            word <= n,
            bits@.len() == n,
            n == old(bits)@.len(),
            forall|w: int| 0 <= w < word ==> #[trigger] bits@[w] == 0,
        decreases n - word,
    {
        bits.set(word, 0);
        word += 1;
    }
    assert forall|s: int| 0 <= s implies !#[trigger] row_bit(bits@, s) by {
        if s / 64 < n {
            assert(bits@[s / 64] == 0);
        }
    }
}

/// Keeps what is not dead among the first shots.
fn fill_keep_bits(keep_bits: &mut Vec<u64>, dead_bits: &Vec<u64>, active_shots: usize)
    requires
        words_for_bits(active_shots as int) <= old(keep_bits)@.len(),
        words_for_bits(active_shots as int) <= dead_bits@.len(),
    ensures
        final(keep_bits)@.len() == old(keep_bits)@.len(),
        survivors(final(keep_bits)@, active_shots as int) == live_list(
            dead_bits@,
            active_shots as int,
        ),
{
    let words: usize = crate::bits::bit_word_count(active_shots);
    let n: usize = keep_bits.len();
    let mut word: usize = 0;
    while word < n
        invariant
            word <= n,
            n == keep_bits@.len(),
            n == old(keep_bits)@.len(),
            words == words_for_bits(active_shots as int),
            words <= dead_bits@.len(),
            words <= n,
            forall|s: int|
                0 <= s < 64 * word && s < active_shots ==> #[trigger] row_bit(keep_bits@, s)
                    == !row_bit(dead_bits@, s),
        decreases n - word,
    {
        let ghost before = keep_bits@;
        let value: u64 = if word < words {
            !dead_bits[word] & live_word_mask_for_shots(active_shots, word)
        } else {
            0
        };
        keep_bits.set(word, value);
        proof {
            assert forall|s: int| 0 <= s < 64 * (word + 1) && s < active_shots implies (
            #[trigger] row_bit(keep_bits@, s)) == !row_bit(dead_bits@, s) by {
                crate::bits::lemma_row_bit_update(before, word as int, value, s);
                if s / 64 == word {
                    assert(word < words);
                    assert(word_bit(value, s % 64) == !word_bit(dead_bits@[word as int], s % 64));
                } else {
                    assert(row_bit(before, s) == !row_bit(dead_bits@, s));
                }
            }
        }
        word += 1;
    }
    proof {
        lemma_live_kept(dead_bits@, keep_bits@, active_shots as int);
    }
}

impl BatchDetectorPostselectionScratch {
    /// There is room for the shots of the runtime, and the dead shots are counted.
    pub open spec fn tracks<A: Copy>(&self, runtime: &BatchFactoredExecutorState<A>) -> bool {
        &&& self.dead_bits@.len() >= runtime.batch_words
        &&& self.keep_bits@.len() >= runtime.batch_words
        &&& self.dead_count == runtime.active_shots - live_list(
            self.dead_bits@,
            runtime.active_shots as int,
        ).len()
    }

    /// The last-use tables belong to the program.
    pub open spec fn tables_for(
        &self,
        program: &FactoredInstructionProgram,
        retained: Seq<Vec<i32>>,
    ) -> bool {
        &&& self.condition_last_use_by_index@.len() == program.nsymbols + 1
        &&& forall|c: int, i: int|
            0 < c <= program.nsymbols && 0 <= i ==> (self.condition_last_use_by_index@[c] >= i)
                == #[trigger] used_from(program, c as i32, i)
        &&& self.record_last_use_by_index@.len() == program.nrecords + 1
        &&& forall|q: int, i: int|
            0 < q <= program.nrecords && 0 <= i <= program.instructions@.len() ==> (
            self.record_last_use_by_index@[q] >= i) == #[trigger] record_used_from(
                program,
                retained,
                q as i32,
                i,
            )
        &&& detectors_in_range(program)
        &&& retained_in_range(retained, program.nrecords as int)
    }
}

/// Moves the dead shots out, where there are any.
#[verifier::rlimit(30)]
pub fn compact_dead_shots_if_needed<A: Copy>(
    runtime: &mut BatchFactoredExecutorState<A>,
    scratch: &mut BatchDetectorPostselectionScratch,
    from: i32,
    expression_last_use: Option<&Vec<i32>>,
)
    requires
        old(runtime).ready(),
        old(scratch).tracks(old(runtime)),
        old(scratch).condition_last_use_by_index@.len() == old(runtime).nsymbols + 1,
        old(runtime).nsymbols < i32::MAX,
        old(runtime).nrecords <= i32::MAX,
        match expression_last_use {
            Some(last_use) => old(scratch).expression_words@.len() >= last_use@.len()
                * old(runtime).batch_words,
            None => true,
        },
    ensures
        old(runtime).active_shots == 0 || old(scratch).dead_count == 0 ==> {
            &&& *final(runtime) == *old(runtime)
            &&& *final(scratch) == *old(scratch)
        },
        old(runtime).active_shots != 0 && old(scratch).dead_count != 0 ==> {
            &&& final(scratch).dead_count == 0
            &&& final(scratch).dead_bits@.len() == old(scratch).dead_bits@.len()
            &&& final(scratch).keep_bits@.len() == old(scratch).keep_bits@.len()
            &&& final(scratch).condition_last_use_by_index == old(scratch).condition_last_use_by_index
            &&& final(scratch).record_last_use_by_index == old(scratch).record_last_use_by_index
            &&& forall|s: int| 0 <= s ==> !#[trigger] row_bit(final(scratch).dead_bits@, s)
            &&& survivors(final(scratch).keep_bits@, old(runtime).active_shots as int) == live_list(
                old(scratch).dead_bits@,
                old(runtime).active_shots as int,
            )
            &&& compacted(
                old(runtime),
                final(runtime),
                final(scratch).keep_bits@,
                old(scratch).condition_last_use_by_index@,
                old(scratch).record_last_use_by_index@,
                from as int,
            )
            &&& final(scratch).expression_words@.len() == old(scratch).expression_words@.len()
            &&& match expression_last_use {
                Some(last_use) => forall|e: int, j: int|
                    0 <= e < last_use@.len() && last_use@[e] >= from && 0 <= j < live_list(
                        old(scratch).dead_bits@,
                        old(runtime).active_shots as int,
                    ).len() ==> #[trigger] plane_bit(
                        final(scratch).expression_words@,
                        old(runtime).batch_words as int,
                        e,
                        j,
                    ) == plane_bit(
                        old(scratch).expression_words@,
                        old(runtime).batch_words as int,
                        e,
                        live_list(old(scratch).dead_bits@, old(runtime).active_shots as int)[j],
                    ),
                None => true,
            }
        },
        final(scratch).tracks(final(runtime)),
{
    if runtime.active_shots == 0 || scratch.dead_count == 0 {
        return ;
    }
    let shots: usize = runtime.active_shots;
    fill_keep_bits(&mut scratch.keep_bits, &scratch.dead_bits, shots);
    compact_surviving_shots(
        runtime,
        scratch.keep_bits.as_slice(),
        &scratch.condition_last_use_by_index,
        &scratch.record_last_use_by_index,
        from,
        &mut scratch.expression_words,
        expression_last_use,
    );
    clear_bits(&mut scratch.dead_bits);
    scratch.dead_count = 0;
    proof {
        lemma_live_all(scratch.dead_bits@, runtime.active_shots as int);
    }
}

/// Copies the columns of the block at hand out of the table of a chunk.
pub fn materialize_expression_workspace(
    expression_words: &mut Vec<u64>,
    expression_plan: &PresampledExpressionPlan,
    expression_block: &PresampledExpressionBlock,
    stride_words: usize,
    active_shots: usize,
    first_sample_shot: usize,
) -> (r: Result<()>)
    requires
        expression_block.expression_words@.len() == expression_plan.block_expressions@.len()
            * expression_block.shot_words,
        expression_plan.block_expressions@.len() * stride_words <= usize::MAX,
        words_for_bits(active_shots as int) <= stride_words,
        first_sample_shot / 64 + stride_words + 1 <= usize::MAX,
    ensures
        match r {
            Ok(_) => {
                &&& first_sample_shot + active_shots <= expression_block.nshots
                &&& final(expression_words)@.len() >= expression_plan.block_expressions@.len()
                    * stride_words
                &&& forall|e: int, s: int|
                    0 <= e < expression_plan.block_expressions@.len() && 0 <= s < active_shots
                        ==> #[trigger] plane_bit(
                        final(expression_words)@,
                        stride_words as int,
                        e,
                        s,
                    ) == plane_bit(
                        expression_block.expression_words@,
                        expression_block.shot_words as int,
                        e,
                        first_sample_shot + s,
                    )
            },
            Err(err) => {
                &&& first_sample_shot + active_shots > expression_block.nshots
                &&& *final(expression_words) == *old(expression_words)
                &&& err@ == "batch presampled expression source range is out of bounds"@
            },
        },
{
    if expression_block.nshots < first_sample_shot || active_shots > expression_block.nshots
        - first_sample_shot {
        return Err(
            TicitError::new("batch presampled expression source range is out of bounds"),
        );
    }
    let count: usize = expression_plan.block_expressions.len();
    let ghost st = stride_words as int;
    let ghost planes = count as int;
    let ghost table = expression_block.expression_words@;
    let ghost width = expression_block.shot_words as int;
    let total: usize = count * stride_words;
    if expression_words.len() < total {
        resize_list(expression_words, total, 0u64);
    }
    let mut e: usize = 0;
    while e < count
        invariant
            e <= count,
            planes == count,
            count == expression_plan.block_expressions@.len(),
            st == stride_words,
            planes * st <= expression_words@.len(),
            table == expression_block.expression_words@,
            width == expression_block.shot_words,
            table.len() == planes * width,
            words_for_bits(active_shots as int) <= stride_words,
            first_sample_shot / 64 + stride_words + 1 <= usize::MAX,
            forall|p: int, s: int|
                0 <= p < e && 0 <= s < active_shots ==> #[trigger] plane_bit(
                    expression_words@,
                    st,
                    p,
                    s,
                ) == plane_bit(table, width, p, first_sample_shot + s),
        decreases count - e,
    {
        assert((e + 1) * width <= planes * width) by (nonlinear_arith)
            requires
                e + 1 <= planes,
                0 <= width,
        ;
        let mut word: usize = 0;
        while word < stride_words
            invariant
                e < count,
                word <= stride_words,
                planes == count,
                st == stride_words,
                planes * st <= expression_words@.len(),
                table == expression_block.expression_words@,
                width == expression_block.shot_words,
                table.len() >= (e + 1) * width,
                first_sample_shot / 64 + stride_words + 1 <= usize::MAX,
                forall|p: int, s: int|
                    0 <= p < e && 0 <= s < active_shots ==> #[trigger] plane_bit(
                        expression_words@,
                        st,
                        p,
                        s,
                    ) == plane_bit(table, width, p, first_sample_shot + s),
                forall|s: int|
                    0 <= s < 64 * word && s < active_shots ==> #[trigger] plane_bit(
                        expression_words@,
                        st,
                        e as int,
                        s,
                    ) == plane_bit(table, width, e as int, first_sample_shot + s),
            decreases stride_words - word,
        {
            let ghost before = expression_words@;
            let length: usize = expression_words.len();
            let value: u64 = expression_slice_word(
                expression_block,
                e,
                first_sample_shot,
                active_shots,
                word,
            );
            proof {
                lemma_plane_index(st, planes, e as int, word as int);
                assert(planes * st <= length);
            }
            expression_words.set(e * stride_words + word, value);
            proof {
                assert forall|p: int, s: int| 0 <= p < e && 0 <= s < active_shots implies (
                #[trigger] plane_bit(expression_words@, st, p, s)) == plane_bit(
                    table,
                    width,
                    p,
                    first_sample_shot + s,
                ) by {
                    lemma_plane_update(before, st, planes, e as int, word as int, value, p, s);
                    assert(plane_bit(before, st, p, s) == plane_bit(
                        table,
                        width,
                        p,
                        first_sample_shot + s,
                    ));
                }
                assert forall|s: int| 0 <= s < 64 * (word + 1) && s < active_shots implies (
                #[trigger] plane_bit(expression_words@, st, e as int, s)) == plane_bit(
                    table,
                    width,
                    e as int,
                    first_sample_shot + s,
                ) by {
                    lemma_plane_update(before, st, planes, e as int, word as int, value, e as int, s);
                    if s / 64 == word {
                        let j = s % 64;
                        assert(word_bit(value, j) == (64 * word + j < active_shots && plane_bit(
                            table,
                            width,
                            e as int,
                            first_sample_shot + 64 * word + j,
                        )));
                    } else {
                        assert(plane_bit(before, st, e as int, s) == plane_bit(
                            table,
                            width,
                            e as int,
                            first_sample_shot + s,
                        ));
                    }
                }
            }
            word += 1;
        }
        e += 1;
    }
    Ok(())
}

// ---------------------------------------------------------------------------
// Skipping dead shots
// ---------------------------------------------------------------------------
/// Rotates the whole active state of every shot that is not dead.
pub fn rotate_shot_major_postselected<A: Copy, K: ActiveKernels<A>>(
    k: &K,
    runtime: &mut BatchFactoredExecutorState<A>,
    kernel: crate::program::RotationKernel,
    sign_bits: &[u64],
    dead: Option<&[u64]>,
) -> (r: Result<()>)
    requires
        lawful::<A, K>(k),
        old(runtime).ready(),
        !old(runtime).active_components_enabled,
    ensures
        final(runtime).same_frame(old(runtime)),
        final(runtime).active_shots == old(runtime).active_shots,
        match r {
            Ok(_) => final(runtime).ready() && forall|first: int|
                match rotate(
                    k,
                    #[trigger] old(runtime).block(first),
                    0,
                    kernel,
                    row_bits(sign_bits@, old(runtime).active_shots as int),
                ) {
                    Ok(after) => agrees_alive(final(runtime).block(first), after, dead_view(dead)),
                    Err(_) => false,
                },
            Err(e) => forall|first: int|
                rotate(
                    k,
                    #[trigger] old(runtime).block(first),
                    0,
                    kernel,
                    row_bits(sign_bits@, old(runtime).active_shots as int),
                ) == Err::<Block<A>, Seq<char>>(e@),
        },
{
    match rotate_part_lanes(k, runtime, 0, kernel, sign_bits, dead) {
        Err(e) => Err(e),
        Ok(_) => {
            proof {
                let bits = row_bits(sign_bits@, old(runtime).active_shots as int);
                assert forall|first: int|
                    match rotate(k, #[trigger] old(runtime).block(first), 0, kernel, bits) {
                        Ok(after) => agrees_alive(runtime.block(first), after, dead_view(dead)),
                        Err(_) => false,
                    } by {
                    let b = old(runtime).block(first);
                    let lanes = Seq::new(b.shots.len(), |s: int| runtime.lane(s, 0));
                    lemma_block_lanes(old(runtime), runtime, 0, lanes, first);
                    let after = rotate(k, b, 0, kernel, bits)->Ok_0;
                    let x = runtime.block(first);
                    assert(x.parts =~= after.parts);
                    assert forall|s: int|
                        0 <= s < x.shots.len() && !is_dead(dead_view(dead), s) implies (
                    #[trigger] x.shots[s]) == after.shots[s] by {
                        assert(bits[s] == row_bit(sign_bits@, s));
                        assert(x.shots[s].lanes =~= after.shots[s].lanes);
                    }
                }
            }
            Ok(())
        },
    }
}

/// Takes a dormant qubit into the whole active state of every shot that is not dead.
pub fn promote_shot_major_postselected<A: Copy, K: ActiveKernels<A>>(
    k: &K,
    runtime: &mut BatchFactoredExecutorState<A>,
    kernel_angle: u64,
    sign_bits: &[u64],
    dead: Option<&[u64]>,
) -> (r: Result<()>)
    requires
        lawful::<A, K>(k),
        old(runtime).ready(),
        !old(runtime).active_components_enabled,
    ensures
        final(runtime).same_frame(old(runtime)),
        final(runtime).active_shots == old(runtime).active_shots,
        match r {
            Ok(_) => final(runtime).ready() && forall|first: int|
                match promote(
                    k,
                    #[trigger] old(runtime).block(first),
                    kernel_angle,
                    row_bits(sign_bits@, old(runtime).active_shots as int),
                ) {
                    Ok(after) => agrees_alive(final(runtime).block(first), after, dead_view(dead)),
                    Err(_) => false,
                },
            Err(e) => forall|first: int|
                promote(
                    k,
                    #[trigger] old(runtime).block(first),
                    kernel_angle,
                    row_bits(sign_bits@, old(runtime).active_shots as int),
                ) == Err::<Block<A>, Seq<char>>(e@),
        },
{
    match promote_whole_lanes(k, runtime, kernel_angle, sign_bits, dead) {
        Err(e) => Err(e),
        Ok(_) => {
            proof {
                let bits = row_bits(sign_bits@, old(runtime).active_shots as int);
                assert forall|first: int|
                    match promote(k, #[trigger] old(runtime).block(first), kernel_angle, bits) {
                        Ok(after) => agrees_alive(runtime.block(first), after, dead_view(dead)),
                        Err(_) => false,
                    } by {
                    let b = old(runtime).block(first);
                    let lanes = Seq::new(b.shots.len(), |s: int| runtime.lane(s, 0));
                    lemma_block_lanes(old(runtime), runtime, 0, lanes, first);
                    assert(b.parts[0] == old(runtime).part(0));
                    let after = promote(k, b, kernel_angle, bits)->Ok_0;
                    let x = runtime.block(first);
                    assert(x.parts[0] == runtime.part(0));
                    assert(x.parts =~= after.parts);
                    assert forall|s: int|
                        0 <= s < x.shots.len() && !is_dead(dead_view(dead), s) implies (
                    #[trigger] x.shots[s]) == after.shots[s] by {
                        assert(bits[s] == row_bit(sign_bits@, s));
                        assert(x.shots[s].lanes =~= after.shots[s].lanes);
                    }
                }
            }
            Ok(())
        },
    }
}

// ---------------------------------------------------------------------------
// Steps
// ---------------------------------------------------------------------------
/// Blocks that differ in dead shots alone follow alike.
proof fn lemma_alive_follows<A>(
    program: &FactoredInstructionProgram,
    plan: PresampledExpressionPlan,
    retained: Seq<Vec<i32>>,
    i: int,
    base_x: spec_fn(int, int) -> bool,
    base_y: spec_fn(int, int) -> bool,
    x: Block<A>,
    ideal: Block<A>,
    y: Block<A>,
    dead: Seq<u64>,
    n: int,
    skipped: Option<Seq<u64>>,
)
    requires
        0 <= n,
        n == x.shots.len(),
        agrees_alive(x, ideal, skipped),
        skipped is Some ==> skipped->0 == dead,
        follows(program, plan, retained, i, base_x, base_y, ideal, y, live_list(dead, n)),
    ensures
        follows(program, plan, retained, i, base_x, base_y, x, y, live_list(dead, n)),
{
    lemma_live_list(dead, n);
    let live = live_list(dead, n);
    assert forall|j: int| 0 <= j < live.len() implies 0 <= #[trigger] live[j] < x.shots.len() && agrees(
        program,
        plan,
        retained,
        i,
        base_x,
        base_y,
        x.shots[live[j]],
        y.shots[j],
    ) by {
        assert(x.shots[live[j]] == ideal.shots[live[j]]);
    }
}

/// What holds before and after every step: the live shots follow the shots that are
/// left.
pub open spec fn in_step<A: Copy>(
    program: &FactoredInstructionProgram,
    plan: PresampledExpressionPlan,
    retained: Seq<Vec<i32>>,
    i: int,
    base_x: spec_fn(int, int) -> bool,
    base_y: spec_fn(int, int) -> bool,
    runtime: &BatchFactoredExecutorState<A>,
    first: int,
    dead: Seq<u64>,
    y: Block<A>,
) -> bool {
    &&& follows(
        program,
        plan,
        retained,
        i,
        base_x,
        base_y,
        runtime.block(first),
        y,
        live_list(dead, runtime.active_shots as int),
    )
    &&& unclaimed(program, i, runtime.block(first))
    &&& runtime.nrecords <= i32::MAX
}

/// The step of an instruction that discards nothing.
proof fn lemma_plain_step<A: Copy, K: ActiveKernels<A>>(
    k: &K,
    program: &FactoredInstructionProgram,
    plan: PresampledExpressionPlan,
    retained: Seq<Vec<i32>>,
    expected: Seq<u8>,
    i: int,
    base_x: spec_fn(int, int) -> bool,
    base_y: spec_fn(int, int) -> bool,
    before: &BatchFactoredExecutorState<A>,
    first: int,
    dead: Seq<u64>,
    y: Block<A>,
)
    requires
        residuals_within(plan, program),
        single_assignment(program),
        0 <= i < program.instructions@.len(),
        !discards_at(program, before.active_components_enabled, i),
        in_step(program, plan, retained, i, base_x, base_y, before, first, dead, y),
        y.shots.len() > 0,
        !is_pure(program.instructions@[i]) ==> live_list(dead, before.active_shots as int).len()
            == before.active_shots,
    ensures
        match (
            step(k, base_x, plan, program, i, before.block(first)),
            select_step(k, base_y, plan, program, expected, i, y),
        ) {
            (Ok(after_x), Ok(after_y)) => {
                &&& follows(
                    program,
                    plan,
                    retained,
                    i + 1,
                    base_x,
                    base_y,
                    after_x,
                    after_y,
                    live_list(dead, before.active_shots as int),
                )
                &&& unclaimed(program, i + 1, after_x)
                &&& after_x.nrecords <= i32::MAX
                &&& after_x.shots.len() == before.active_shots
            },
            (Err(t), Err(u)) => t == u,
            _ => false,
        },
{
    let x = before.block(first);
    let n = before.active_shots as int;
    let live = live_list(dead, n);
    lemma_known_step(k, base_x, plan, program, i, x);
    assert(records_counted(x));
    assert(select_step(k, base_y, plan, program, expected, i, y) == step(
        k,
        base_y,
        plan,
        program,
        i,
        y,
    ));
    if is_pure(program.instructions@[i]) {
        lemma_pure_follows(k, program, plan, retained, i, base_x, base_y, x, y, live);
    } else {
        lemma_live_full(dead, n);
        lemma_live_all(dead, n);
        assert(pairwise(program, plan, retained, i, base_x, base_y, x, y)) by {
            assert forall|s: int| 0 <= s < x.shots.len() implies agrees(
                program,
                plan,
                retained,
                i,
                base_x,
                base_y,
                #[trigger] x.shots[s],
                y.shots[s],
            ) by {
                assert(live[s] == s);
            }
        }
        lemma_drawing_pairwise(k, program, plan, retained, i, base_x, base_y, x, y);
        match (
            step(k, base_x, plan, program, i, x),
            step(k, base_y, plan, program, i, y),
        ) {
            (Ok(after_x), Ok(after_y)) => {
                lemma_same_shots(k, base_x, plan, program, i, x);
                lemma_same_shots(k, base_y, plan, program, i, y);
                assert forall|j: int| 0 <= j < live.len() implies 0 <= #[trigger] live[j]
                    < after_x.shots.len() && agrees(
                    program,
                    plan,
                    retained,
                    i + 1,
                    base_x,
                    base_y,
                    after_x.shots[live[j]],
                    after_y.shots[j],
                ) by {
                    assert(live[j] == j);
                    assert(agrees(
                        program,
                        plan,
                        retained,
                        i + 1,
                        base_x,
                        base_y,
                        after_x.shots[j],
                        after_y.shots[j],
                    ));
                }
            },
            _ => {},
        }
    }
}

proof fn lemma_merge_shots<A, K: ActiveKernels<A>>(
    k: &K,
    b: Block<A>,
    list: Seq<usize>,
    target: int,
    from: int,
    end: int,
)
    ensures
        match crate::model::merge_from(k, b, list, target, from, end) {
            Ok(after) => after.shots.len() == b.shots.len(),
            Err(_) => true,
        },
    decreases end - from,
{
    if from < end {
        match crate::model::merge_one(k, b, target, list[from] as int) {
            Ok(next) => {
                lemma_merge_shots(k, next, list, target, from + 1, end);
            },
            Err(_) => {},
        }
    }
}

/// No instruction adds or removes shots by itself.
pub proof fn lemma_same_shots<A, K: ActiveKernels<A>>(
    k: &K,
    base: spec_fn(int, int) -> bool,
    plan: PresampledExpressionPlan,
    program: &FactoredInstructionProgram,
    i: int,
    b: Block<A>,
)
    ensures
        match step(k, base, plan, program, i, b) {
            Ok(after) => after.shots.len() == b.shots.len(),
            Err(_) => true,
        },
{
    if b.split {
        let parts = program.active_component_plan->0;
        let payload = parts.instruction_steps@[i].payload as int;
        let rotation = parts.rotations@[payload];
        lemma_merge_shots(
            k,
            b,
            parts.merge_components@,
            rotation.component as int,
            rotation.merge_offset as int + 1,
            rotation.merge_offset as int + rotation.merge_count as int,
        );
        let measurement = parts.measurements@[payload];
        lemma_merge_shots(
            k,
            b,
            parts.merge_components@,
            measurement.component as int,
            measurement.merge_offset as int + 1,
            measurement.merge_offset as int + measurement.merge_count as int,
        );
    }
}

/// What a step of the executor leaves.
pub open spec fn stepped<A: Copy, K: ActiveKernels<A>>(
    k: &K,
    program: &FactoredInstructionProgram,
    plan: PresampledExpressionPlan,
    retained: Seq<Vec<i32>>,
    expected: Seq<u8>,
    i: int,
    j: int,
    base_x: spec_fn(int, int) -> bool,
    base_y: spec_fn(int, int) -> bool,
    runtime: &BatchFactoredExecutorState<A>,
    first: int,
    dead: Seq<u64>,
    y: Block<A>,
) -> bool {
    match select_run(k, base_y, plan, program, expected, i, j, y) {
        Ok(after) => in_step(
            program,
            plan,
            retained,
            j,
            base_x,
            base_y,
            runtime,
            first,
            dead,
            after,
        ),
        Err(_) => false,
    }
}

/// Where no shot is dead, the executor holds the block that postselection means, if it
/// did so before.
pub open spec fn stays_exact<A: Copy, K: ActiveKernels<A>>(
    k: &K,
    program: &FactoredInstructionProgram,
    plan: PresampledExpressionPlan,
    expected: Seq<u8>,
    i: int,
    j: int,
    base: spec_fn(int, int) -> bool,
    before: &BatchFactoredExecutorState<A>,
    after: &BatchFactoredExecutorState<A>,
    first: int,
    dead: Seq<u64>,
) -> bool {
    live_list(dead, before.active_shots as int).len() == before.active_shots ==> select_run(
        k,
        base,
        plan,
        program,
        expected,
        i,
        j,
        before.block(first),
    ) == Ok::<Block<A>, Seq<char>>(after.block(first))
}

/// Blocks that agree on all shots are equal.
proof fn lemma_all_alive<A>(x: Block<A>, y: Block<A>)
    requires
        agrees_alive(x, y, None),
    ensures
        x == y,
{
    assert forall|s: int| 0 <= s < x.shots.len() implies x.shots[s] == y.shots[s] by {
        assert(!is_dead(None, s));
    }
    assert(x.shots =~= y.shots);
}

/// Nothing is discarded where every outcome is as expected.
proof fn lemma_all_accepted<A>(shots: Seq<Shot<A>>, outcomes: Seq<bool>, expected: bool, n: int)
    requires
        0 <= n <= shots.len(),
        forall|s: int| 0 <= s < n ==> outcomes[s] == expected,
    ensures
        accepted(shots, outcomes, expected, n) == shots.take(n),
    decreases n,
{
    if n > 0 {
        lemma_all_accepted(shots, outcomes, expected, n - 1);
        assert(outcomes[n - 1] == expected);
        assert(shots.take(n) =~= shots.take(n - 1).push(shots[n - 1]));
    } else {
        assert(shots.take(0) =~= Seq::empty());
    }
}

/// A run of rotations and promotions discards nothing.
proof fn lemma_turning_selects_all<A, K: ActiveKernels<A>>(
    k: &K,
    base: spec_fn(int, int) -> bool,
    plan: PresampledExpressionPlan,
    program: &FactoredInstructionProgram,
    expected: Seq<u8>,
    i: int,
    j: int,
    b: Block<A>,
)
    requires
        0 <= i <= j <= program.instructions@.len(),
        turning(program, i, j),
        b.shots.len() > 0,
    ensures
        select_run(k, base, plan, program, expected, i, j, b) == run(
            k,
            base,
            plan,
            program,
            i,
            j,
            b,
        ),
    decreases j - i,
{
    if i < j {
        let ins = program.instructions@[i];
        assert(is_rotation(ins) || is_promotion(ins));
        lemma_same_shots(k, base, plan, program, i, b);
        match step(k, base, plan, program, i, b) {
            Ok(next) => {
                assert(turning(program, i + 1, j)) by {
                    assert forall|m: int| i + 1 <= m < j implies is_rotation(
                        #[trigger] program.instructions@[m],
                    ) || is_promotion(program.instructions@[m]) by {}
                }
                lemma_turning_selects_all(k, base, plan, program, expected, i + 1, j, next);
            },
            Err(_) => {},
        }
    }
}

proof fn lemma_one_step<A, K: ActiveKernels<A>>(
    k: &K,
    base: spec_fn(int, int) -> bool,
    plan: PresampledExpressionPlan,
    program: &FactoredInstructionProgram,
    expected: Seq<u8>,
    i: int,
    y: Block<A>,
)
    requires
        y.shots.len() > 0,
    ensures
        select_run(k, base, plan, program, expected, i, i, y) == Ok::<Block<A>, Seq<char>>(y),
        select_run(k, base, plan, program, expected, i, i + 1, y) == select_step(
            k,
            base,
            plan,
            program,
            expected,
            i,
            y,
        ),
{
    reveal_with_fuel(select_run, 3);
}

/// Whether the outcome of the detector is expected to be set.
pub fn detector_expected(expected_detectors: &[u8], detector: i32) -> (r: bool)
    ensures
        r == expected_at(expected_detectors@, detector),
{
    if detector <= 0 {
        return false;
    }
    let at: usize = (detector - 1) as usize;
    at < expected_detectors.len() && expected_detectors[at] != 0
}

/// Runs a detector that discards: stores its outcomes where detectors are stored, and
/// marks the shots with an unexpected outcome.
#[verifier::rlimit(40)]
fn execute_discarding_detector<'a, A: Copy, K: ActiveKernels<A>>(
    k: &K,
    runtime: &mut BatchFactoredExecutorState<A>,
    program: &FactoredInstructionProgram,
    source: &BatchSignSource<'a>,
    idx: usize,
    detector: &crate::program::RecordDetector,
    dead_bits: &mut Vec<u64>,
    expected_detectors: &[u8],
    work: &mut Vec<u64>,
    Ghost(retained): Ghost<Seq<Vec<i32>>>,
    Ghost(base_y): Ghost<spec_fn(int, int) -> bool>,
    Ghost(y): Ghost<Block<A>>,
) -> (r: Result<usize>)
    requires
        old(runtime).ready(),
        executable(program, old(runtime).batch_words as int),
        source.serves(old(runtime)),
        idx < program.instructions@.len(),
        program.instructions@[idx as int] == FactoredInstruction::RecordDetector(*detector),
        discards_at(program, old(runtime).active_components_enabled, idx as int),
        residuals_within(source.plan_of(), program),
        single_assignment(program),
        old(dead_bits)@.len() >= old(runtime).batch_words,
        y.shots.len() > 0,
        in_step(
            program,
            source.plan_of(),
            retained,
            idx as int,
            source.base(),
            base_y,
            old(runtime),
            source.first(),
            old(dead_bits)@,
            y,
        ),
    ensures
        final(runtime).same_frame(old(runtime)),
        final(runtime).active_shots == old(runtime).active_shots,
        final(dead_bits)@.len() == old(dead_bits)@.len(),
        match r {
            Ok(discarded) => {
                &&& final(runtime).ready()
                &&& discarded == live_list(
                    old(dead_bits)@,
                    old(runtime).active_shots as int,
                ).len() - live_list(final(dead_bits)@, old(runtime).active_shots as int).len()
                &&& stepped(
                    k,
                    program,
                    source.plan_of(),
                    retained,
                    expected_detectors@,
                    idx as int,
                    idx + 1,
                    source.base(),
                    base_y,
                    final(runtime),
                    source.first(),
                    final(dead_bits)@,
                    y,
                )
                &&& source.base() == base_y ==> stays_exact(
                    k,
                    program,
                    source.plan_of(),
                    expected_detectors@,
                    idx as int,
                    idx + 1,
                    base_y,
                    old(runtime),
                    final(runtime),
                    source.first(),
                    final(dead_bits)@,
                )
            },
            Err(e) => select_stops(
                k,
                base_y,
                source.plan_of(),
                program,
                expected_detectors@,
                idx as int,
                idx as int,
                y,
                e@,
            ),
        },
{
    let ghost i = idx as int;
    let ghost plan = source.plan_of();
    let ghost first = source.first();
    let ghost base = source.base();
    let ghost x = old(runtime).block(first);
    let ghost n = runtime.active_shots as int;
    let expected: bool = detector_expected(expected_detectors, detector.detector);
    proof {
        assert(program.instructions@[i].wf());
        assert(crate::runtime::ids_fit(program.instructions@[i], runtime.batch_words as int));
        lemma_one_step(k, base_y, plan, program, expected_detectors@, i, y);
        assert(detector_refusal(plan, *detector, i, x) == detector_refusal(plan, *detector, i, y));
        assert(records_counted(x));
    }
    match detector_outcome_bits(runtime, detector, source, idx, work) {
        Err(e) => {
            return Err(e);
        },
        Ok(_) => {},
    }
    let ghost outcomes = detector_outcomes(base, plan, *detector, i, x);
    assert(row_bits(work@, n) == outcomes);
    if runtime.store_detector_records {
        match write_batch_detector_record(runtime, detector.detector, work.as_slice()) {
            Err(e) => {
                return Err(e);
            },
            Ok(_) => {},
        }
        proof {
            lemma_block_detector(old(runtime), runtime, detector.detector, work@, first);
        }
    }
    let ghost after_x = runtime.block(first);
    let discarded: usize = mark_dead_from_detector_bits(
        dead_bits,
        runtime.active_shots,
        work.as_slice(),
        expected,
    );
    proof {
        assert forall|s: int| 0 <= s < x.shots.len() implies #[trigger] row_bit(dead_bits@, s) == (
        row_bit(old(dead_bits)@, s) || outcomes[s] != expected) by {
            assert(row_bits(work@, n)[s] == row_bit(work@, s));
        }
        lemma_discard_follows(
            program,
            plan,
            retained,
            i,
            base,
            base_y,
            x,
            y,
            after_x,
            *detector,
            expected,
            old(dead_bits)@,
            dead_bits@,
        );
        assert(unclaimed(program, i + 1, after_x));
        if base == base_y && live_list(dead_bits@, n).len() == n {
            lemma_live_full(dead_bits@, n);
            assert forall|s: int| 0 <= s < n implies outcomes[s] == expected by {
                assert(!row_bit(dead_bits@, s));
            }
            lemma_all_accepted(after_x.shots, outcomes, expected, n);
            assert(after_x.shots.take(n) =~= after_x.shots);
            lemma_one_step(k, base_y, plan, program, expected_detectors@, i, x);
            assert(discard_step(base, plan, *detector, expected, i, x) == Ok::<Block<A>, Seq<char>>(
                after_x,
            ));
        }
    }
    Ok(discarded)
}

/// One step: a fused run, a detector that discards, or one instruction. Gives how
/// many instructions were done and how many shots were discarded.
#[verifier::rlimit(80)]
#[verifier::spinoff_prover]
fn execute_postselected_step<'a, A: Copy, K: ActiveKernels<A>>(
    k: &K,
    runtime: &mut BatchFactoredExecutorState<A>,
    program: &FactoredInstructionProgram,
    source: &BatchSignSource<'a>,
    idx: usize,
    dead_bits: &mut Vec<u64>,
    dead_count: usize,
    expected_detectors: &[u8],
    work: &mut Vec<u64>,
    Ghost(retained): Ghost<Seq<Vec<i32>>>,
    Ghost(base_y): Ghost<spec_fn(int, int) -> bool>,
    Ghost(y): Ghost<Block<A>>,
) -> (r: Result<(usize, usize)>)
    requires
        lawful::<A, K>(k),
        old(runtime).ready(),
        executable(program, old(runtime).batch_words as int),
        source.serves(old(runtime)),
        old(runtime).active_components_enabled == program.use_active_components,
        idx < program.instructions@.len(),
        residuals_within(source.plan_of(), program),
        single_assignment(program),
        old(dead_bits)@.len() >= old(runtime).batch_words,
        dead_count == old(runtime).active_shots - live_list(
            old(dead_bits)@,
            old(runtime).active_shots as int,
        ).len(),
        !is_pure(program.instructions@[idx as int]) ==> dead_count == 0,
        y.shots.len() > 0,
        in_step(
            program,
            source.plan_of(),
            retained,
            idx as int,
            source.base(),
            base_y,
            old(runtime),
            source.first(),
            old(dead_bits)@,
            y,
        ),
    ensures
        final(runtime).same_frame(old(runtime)),
        final(runtime).active_shots == old(runtime).active_shots,
        final(dead_bits)@.len() == old(dead_bits)@.len(),
        match r {
            Ok((consumed, discarded)) => {
                &&& 0 < consumed <= program.instructions@.len() - idx
                &&& final(runtime).ready()
                &&& discarded == live_list(
                    old(dead_bits)@,
                    old(runtime).active_shots as int,
                ).len() - live_list(final(dead_bits)@, old(runtime).active_shots as int).len()
                &&& stepped(
                    k,
                    program,
                    source.plan_of(),
                    retained,
                    expected_detectors@,
                    idx as int,
                    idx + consumed,
                    source.base(),
                    base_y,
                    final(runtime),
                    source.first(),
                    final(dead_bits)@,
                    y,
                )
                &&& source.base() == base_y ==> stays_exact(
                    k,
                    program,
                    source.plan_of(),
                    expected_detectors@,
                    idx as int,
                    idx + consumed,
                    base_y,
                    old(runtime),
                    final(runtime),
                    source.first(),
                    final(dead_bits)@,
                )
            },
            Err(e) => select_halts(
                k,
                base_y,
                source.plan_of(),
                program,
                expected_detectors@,
                idx as int,
                y,
                e@,
            ),
        },
{
    let ghost i = idx as int;
    let ghost plan = source.plan_of();
    let ghost first = source.first();
    let ghost base = source.base();
    let ghost x = old(runtime).block(first);
    let ghost n = runtime.active_shots as int;
    let ghost live = live_list(dead_bits@, n);
    let ghost expected = expected_detectors@;
    proof {
        lemma_live_list(dead_bits@, n);
        lemma_one_step(k, base_y, plan, program, expected, i, y);
        assert(program.instructions@[i].wf());
        assert(crate::runtime::ids_fit(program.instructions@[i], runtime.batch_words as int));
        assert(records_counted(x));
    }
    let skips: bool = runtime.dense_shot_major_active && !runtime.active_components_enabled;
    if skips {
        let dead: Option<&[u64]> = if dead_count != 0 {
            Some(dead_bits.as_slice())
        } else {
            None
        };
        let ghost skipped = dead_view(dead);
        match execute_shot_major_rotation_run(k, runtime, program, source, idx, dead) {
            Err(e) => {
                proof {
                    let j = choose|j: int| #[trigger]
                        stops_at(k, base, plan, program, i, j, x, e@) && turning(program, i, j + 1);
                    lemma_stops_follows(
                        k,
                        program,
                        plan,
                        retained,
                        expected,
                        i,
                        j,
                        base,
                        base_y,
                        x,
                        y,
                        live,
                        e@,
                    );
                    assert(select_halts(k, base_y, plan, program, expected, i, y, e@));
                }
                return Err(e);
            },
            Ok(done) => {
                if done != 0 {
                    proof {
                        let f = fused(k, base, plan, program.instructions@, i, done as int, x);
                        assert(is_whole(x)) by {
                            assert(x.parts[0] == old(runtime).part(0));
                        }
                        law_fused_run_is_the_run(k, base, plan, program, i, done as int, x);
                        lemma_run_follows(
                            k,
                            program,
                            plan,
                            retained,
                            expected,
                            i,
                            i + done,
                            base,
                            base_y,
                            x,
                            y,
                            live,
                        );
                        let after = select_run(k, base_y, plan, program, expected, i, i + done, y)->Ok_0;
                        let now = runtime.block(first);
                        lemma_alive_follows(
                            program,
                            plan,
                            retained,
                            i + done,
                            base,
                            base_y,
                            now,
                            f,
                            after,
                            dead_bits@,
                            n,
                            skipped,
                        );
                        assert(now.nrecords == f.nrecords);
                        if base == base_y && live_list(dead_bits@, n).len() == n {
                            assert(skipped is None);
                            lemma_all_alive(now, f);
                            lemma_turning_selects_all(k, base, plan, program, expected, i, i + done, x);
                        }
                    }
                    return Ok((done, 0));
                }
            },
        }
    }
    if let FactoredInstruction::RecordDetector(detector) = &program.instructions[idx] {
        if detector.postselect {
            let component_handled: bool = if runtime.active_components_enabled {
                match &program.active_component_plan {
                    Some(parts) => match parts.instruction_steps[idx].kind {
                        ActiveComponentStepKind::Unaffected => false,
                        _ => true,
                    },
                    None => false,
                }
            } else {
                false
            };
            if !component_handled {
                match execute_discarding_detector(
                    k,
                    runtime,
                    program,
                    source,
                    idx,
                    detector,
                    dead_bits,
                    expected_detectors,
                    work,
                    Ghost(retained),
                    Ghost(base_y),
                    Ghost(y),
                ) {
                    Err(e) => {
                        assert(select_halts(k, base_y, plan, program, expected, i, y, e@));
                        return Err(e);
                    },
                    Ok(discarded) => {
                        return Ok((1, discarded));
                    },
                }
            }
        }
    }
    proof {
        assert(!discards_at(program, runtime.active_components_enabled, i));
        lemma_plain_step(
            k,
            program,
            plan,
            retained,
            expected,
            i,
            base,
            base_y,
            old(runtime),
            first,
            dead_bits@,
            y,
        );
    }
    let dead: Option<&[u64]> = if skips && dead_count != 0 {
        Some(dead_bits.as_slice())
    } else {
        None
    };
    let ghost skipped = dead_view(dead);
    let done: Result<()> = if runtime.active_components_enabled {
        match &program.active_component_plan {
            Some(parts) => execute_batch_component_instruction(
                k,
                runtime,
                parts,
                &program.instructions,
                source,
                idx,
                work,
            ),
            None => {
                assert(false);
                Ok(())
            },
        }
    } else {
        match &program.instructions[idx] {
            FactoredInstruction::ApplyPrecomputedActivePauliRotation(inst) => {
                match source.eval(idx, runtime, work) {
                    Err(e) => Err(e),
                    Ok(_) => rotate_shot_major_postselected(
                        k,
                        runtime,
                        inst.rotation_kernel,
                        work.as_slice(),
                        dead,
                    ),
                }
            },
            FactoredInstruction::PromoteDormantRotation(inst) => {
                match source.eval(idx, runtime, work) {
                    Err(e) => Err(e),
                    Ok(_) => promote_shot_major_postselected(
                        k,
                        runtime,
                        inst.kernel_angle,
                        work.as_slice(),
                        dead,
                    ),
                }
            },
            _ => execute_batch_instruction(
                k,
                runtime,
                &program.instructions[idx],
                source,
                idx,
                work,
            ),
        }
    };
    match done {
        Err(e) => {
            proof {
                assert(step(k, base, plan, program, i, x) == Err::<Block<A>, Seq<char>>(e@));
                assert(select_stops(k, base_y, plan, program, expected, i, i, y, e@));
                assert(select_halts(k, base_y, plan, program, expected, i, y, e@));
            }
            Err(e)
        },
        Ok(_) => {
            proof {
                let now = runtime.block(first);
                let ideal = step(k, base, plan, program, i, x)->Ok_0;
                assert(agrees_alive(now, ideal, skipped));
                let after = select_step(k, base_y, plan, program, expected, i, y)->Ok_0;
                lemma_alive_follows(
                    program,
                    plan,
                    retained,
                    i + 1,
                    base,
                    base_y,
                    now,
                    ideal,
                    after,
                    dead_bits@,
                    n,
                    skipped,
                );
                if base == base_y && live_list(dead_bits@, n).len() == n {
                    lemma_all_alive(now, ideal);
                    lemma_one_step(k, base_y, plan, program, expected, i, x);
                }
            }
            Ok((1, 0))
        },
    }
}

// ---------------------------------------------------------------------------
// Whole programs
// ---------------------------------------------------------------------------
/// A record that is still used is one that the program declares.
proof fn lemma_used_record(
    program: &FactoredInstructionProgram,
    retained: Seq<Vec<i32>>,
    q: i32,
    i: int,
)
    requires
        0 <= i,
        detectors_in_range(program),
        retained_in_range(retained, program.nrecords as int),
        record_used_from(program, retained, q, i),
    ensures
        0 < q <= program.nrecords,
{
    let len = program.instructions@.len() as int;
    if crate::survive::read_between(program, q, i, len) {
        let m = choose|m: int|
            i <= m < len && crate::survive::reads(#[trigger] program.instructions@[m], q);
        let ins = program.instructions@[m];
        assert(crate::survive::detector_in_range(ins, program.nrecords as int));
        let records = ins->RecordDetector_0.records@;
        let t = choose|t: int| 0 <= t < records.len() && records[t] == q;
        assert(0 < records[t] <= program.nrecords);
    } else {
        let g = choose|g: int| 0 <= g < retained.len() && (#[trigger] retained[g])@.contains(q);
        let records = retained[g]@;
        assert(crate::survive::list_in_range(records, program.nrecords as int));
        let t = choose|t: int| 0 <= t < records.len() && records[t] == q;
        assert(0 < records[t] <= program.nrecords);
    }
}

/// Moving dead shots out keeps the blocks together.
#[verifier::rlimit(60)]
proof fn lemma_compacted_follows<A: Copy>(
    program: &FactoredInstructionProgram,
    plan: PresampledExpressionPlan,
    retained: Seq<Vec<i32>>,
    from: int,
    base_before: spec_fn(int, int) -> bool,
    base_after: spec_fn(int, int) -> bool,
    base_y: spec_fn(int, int) -> bool,
    before: &BatchFactoredExecutorState<A>,
    after: &BatchFactoredExecutorState<A>,
    first: int,
    scratch: &BatchDetectorPostselectionScratch,
    keep: Seq<u64>,
    dead: Seq<u64>,
    y: Block<A>,
)
    requires
        before.ready(),
        0 <= from <= program.instructions@.len(),
        before.nsymbols == program.nsymbols,
        program.nsymbols < i32::MAX,
        scratch.tables_for(program, retained),
        survivors(keep, before.active_shots as int) == live_list(dead, before.active_shots as int),
        compacted(
            before,
            after,
            keep,
            scratch.condition_last_use_by_index@,
            scratch.record_last_use_by_index@,
            from,
        ),
        in_step(program, plan, retained, from, base_before, base_y, before, first, dead, y),
        forall|e: int, j: int|
            expression_used_from(plan, e, from) && 0 <= j < live_list(
                dead,
                before.active_shots as int,
            ).len() ==> #[trigger] base_after(e, j) == base_before(
                e,
                first + live_list(dead, before.active_shots as int)[j],
            ),
    ensures
        follows(
            program,
            plan,
            retained,
            from,
            base_after,
            base_y,
            after.block(0),
            y,
            Seq::new(after.active_shots as nat, |j: int| j),
        ),
        unclaimed(program, from, after.block(0)),
        after.nrecords <= i32::MAX,
{
    let n = before.active_shots as int;
    let list = live_list(dead, n);
    let x = before.block(first);
    let z = after.block(0);
    lemma_live_list(dead, n);
    assert(after.known() =~= before.known()) by {
        assert forall|c: i32| after.known().contains(c) == before.known().contains(c) by {
            assert(after.assigned(c) == before.assigned(c));
        }
    }
    assert(z.parts =~= x.parts);
    assert(z == (Block { shots: z.shots, ..x }));
    let live = Seq::new(after.active_shots as nat, |j: int| j);
    assert forall|j: int| 0 <= j < live.len() implies 0 <= #[trigger] live[j] < z.shots.len() && agrees(
        program,
        plan,
        retained,
        from,
        base_after,
        base_y,
        z.shots[live[j]],
        y.shots[j],
    ) by {
        let a = z.shots[j];
        let b = x.shots[list[j]];
        assert(0 <= list[j] < n);
        assert(a.lanes =~= b.lanes) by {
            assert forall|p: int| 0 <= p < a.lanes.len() implies a.lanes[p] == b.lanes[p] by {
                assert(after.lane(j, p) == before.lane(list[j], p));
            }
        }
        assert(a.exps =~= b.exps) by {
            assert forall|e: int| 0 <= e < a.exps.len() implies a.exps[e] == b.exps[e] by {
                let batches = before.batches as int;
                assert(entry(e, batches, j) == e * batches + j);
                assert(entry(e, batches, list[j]) == e * batches + list[j]);
                assert(after.exp_values@[entry(e, batches, j)] == before.exp_values@[entry(
                    e,
                    batches,
                    list[j],
                )]);
            }
        }
        assert(a.detectors =~= b.detectors) by {
            if before.store_detector_records {
                assert forall|q: int| 0 <= q < a.detectors.len() implies a.detectors[q]
                    == b.detectors[q] by {
                    assert(after.detector_bit(q + 1, j) == before.detector_bit(q + 1, list[j]));
                }
            }
        }
        assert(a.values.dom() =~= b.values.dom());
        assert forall|c: i32|
            a.values.contains_key(c) && #[trigger] used_from(program, c, from) implies a.values[c]
            == b.values[c] by {
            assert(before.known().contains(c));
            assert(before.assigned(c));
            let wide = c as int;
            assert((scratch.condition_last_use_by_index@[wide] >= from) == used_from(
                program,
                wide as i32,
                from,
            ));
            assert(after.value_bit(c, j) == before.value_bit(c, list[j]));
        }
        assert forall|q: int|
            0 < q <= a.records.len() && #[trigger] record_used_from(program, retained, q as i32, from)
            implies a.records[q - 1] == b.records[q - 1] by {
            lemma_used_record(program, retained, q as i32, from);
            assert((scratch.record_last_use_by_index@[q] >= from) == record_used_from(
                program,
                retained,
                q as i32,
                from,
            ));
            assert(after.record_bit(q, j) == before.record_bit(q, list[j]));
        }
        assert forall|e: int| #[trigger] expression_used_from(plan, e, from) implies base_after(
            e,
            a.sample,
        ) == base_before(e, b.sample) by {
            assert(base_after(e, j) == base_before(e, first + list[j]));
        }
        assert(agrees(program, plan, retained, from, base_after, base_before, a, b));
        lemma_agrees_trans(
            program,
            plan,
            retained,
            from,
            base_after,
            base_before,
            base_y,
            a,
            b,
            y.shots[j],
        );
    }
}

/// Makes room for the shots of the runtime.
pub fn prepare_batch_detector_postselection_scratch<A: Copy>(
    scratch: &mut BatchDetectorPostselectionScratch,
    runtime: &BatchFactoredExecutorState<A>,
)
    ensures
        final(scratch).dead_bits@.len() == if old(scratch).dead_bits@.len() < runtime.batch_words {
            runtime.batch_words as int
        } else {
            old(scratch).dead_bits@.len() as int
        },
        final(scratch).keep_bits@.len() == if old(scratch).keep_bits@.len() < runtime.batch_words {
            runtime.batch_words as int
        } else {
            old(scratch).keep_bits@.len() as int
        },
        *final(scratch) == (BatchDetectorPostselectionScratch {
            dead_bits: final(scratch).dead_bits,
            keep_bits: final(scratch).keep_bits,
            ..*old(scratch)
        }),
{
    let words: usize = runtime.batch_words;
    if scratch.dead_bits.len() < words {
        resize_list(&mut scratch.dead_bits, words, 0u64);
    }
    if scratch.keep_bits.len() < words {
        resize_list(&mut scratch.keep_bits, words, 0u64);
    }
}

/// Why the last-use tables of a program cannot be had, if they cannot.
pub open spec fn tables_refusal(
    program: &FactoredInstructionProgram,
    retained: Seq<Vec<i32>>,
) -> Option<Seq<char>> {
    if !detectors_in_range(program) {
        Some("detector references an out-of-range measurement record"@)
    } else if !retained_in_range(retained, program.nrecords as int) {
        Some("retained record use references an out-of-range measurement record"@)
    } else {
        None
    }
}

/// Makes room for the shots of the runtime, and tabulates the last uses of the
/// program's symbols and records.
pub fn prepare_batch_detector_postselection_scratch_for_program<'a, A: Copy>(
    scratch: &mut BatchDetectorPostselectionScratch,
    runtime: &BatchFactoredExecutorState<A>,
    program: &FactoredInstructionProgram,
    options: &BatchDetectorPostselectionOptions<'a>,
) -> (r: Result<()>)
    requires
        program.instructions@.len() < i32::MAX,
        program.nsymbols < i32::MAX,
        program.nrecords < i32::MAX,
    ensures
        final(scratch).dead_bits@.len() >= runtime.batch_words,
        final(scratch).keep_bits@.len() >= runtime.batch_words,
        final(scratch).expression_words == old(scratch).expression_words,
        match r {
            Ok(_) => {
                &&& tables_refusal(program, options.retained()) is None
                &&& final(scratch).tables_for(program, options.retained())
            },
            Err(e) => tables_refusal(program, options.retained()) == Some(e@),
        },
{
    prepare_batch_detector_postselection_scratch(scratch, runtime);
    scratch.condition_last_use_by_index = condition_last_uses(program);
    let tabled: Result<Vec<i32>> = match options.retained_record_uses {
        Some(groups) => measurement_record_last_uses(program, groups),
        None => {
            let none: Vec<Vec<i32>> = Vec::new();
            let r: Result<Vec<i32>> = measurement_record_last_uses(program, none.as_slice());
            assert(none@ =~= options.retained());
            r
        },
    };
    match tabled {
        Err(e) => Err(e),
        Ok(table) => {
            scratch.record_last_use_by_index = table;
            Ok(())
        },
    }
}

/// The expression plan belongs to the program.
pub open spec fn plan_fits(plan: PresampledExpressionPlan, program: &FactoredInstructionProgram) -> bool {
    &&& residuals_wf(plan)
    &&& residuals_within(plan, program)
    &&& forall|i: int|
        0 <= i < plan.instruction_expressions@.len() ==> (
        #[trigger] plan.instruction_expressions@[i]).block_expression_index
            < plan.block_expressions@.len()
    &&& plan.block_expression_last_use_by_index@.len() == plan.block_expressions@.len() ==> last_uses(
        plan.instruction_expressions@,
        plan.block_expression_last_use_by_index@,
        plan.block_expressions@.len() as int,
    )
}

/// What is left of the shots: their amplitudes, expectations, stored detectors and
/// retained records. All that the shots share is as postselection means it.
pub open spec fn leaves<A: Copy>(
    program: &FactoredInstructionProgram,
    retained: Seq<Vec<i32>>,
    runtime: &BatchFactoredExecutorState<A>,
    y: Block<A>,
) -> bool {
    &&& runtime.active_shots == y.shots.len()
    &&& runtime.nrecords == y.nrecords
    &&& runtime.ndetectors == y.ndetectors
    &&& runtime.k == y.k
    &&& runtime.ndormant == y.ndormant
    &&& runtime.rng_state == y.rng
    &&& runtime.known() == y.known
    &&& runtime.parts() == y.parts
    &&& forall|j: int|
        0 <= j < y.shots.len() ==> {
            let shot = runtime.shot(j, j);
            &&& shot.lanes == (#[trigger] y.shots[j]).lanes
            &&& shot.exps == y.shots[j].exps
            &&& shot.detectors == y.shots[j].detectors
            &&& shot.records.len() == y.shots[j].records.len()
            &&& forall|q: int|
                0 < q <= program.nrecords && q <= shot.records.len() && #[trigger] retained_by(
                    retained,
                    q as i32,
                ) ==> shot.records[q - 1] == y.shots[j].records[q - 1]
        }
}

/// Where no shot is dead, the shots are as those that are left.
proof fn lemma_leaves<A: Copy>(
    program: &FactoredInstructionProgram,
    plan: PresampledExpressionPlan,
    retained: Seq<Vec<i32>>,
    i: int,
    base_x: spec_fn(int, int) -> bool,
    base_y: spec_fn(int, int) -> bool,
    runtime: &BatchFactoredExecutorState<A>,
    first: int,
    y: Block<A>,
)
    requires
        follows(
            program,
            plan,
            retained,
            i,
            base_x,
            base_y,
            runtime.block(first),
            y,
            Seq::new(runtime.active_shots as nat, |j: int| j),
        ),
    ensures
        leaves(program, retained, runtime, y),
{
    let live = Seq::new(runtime.active_shots as nat, |j: int| j);
    assert forall|j: int| 0 <= j < y.shots.len() implies {
        let shot = runtime.shot(j, j);
        &&& shot.lanes == (#[trigger] y.shots[j]).lanes
        &&& shot.exps == y.shots[j].exps
        &&& shot.detectors == y.shots[j].detectors
        &&& shot.records.len() == y.shots[j].records.len()
        &&& forall|q: int|
            0 < q <= program.nrecords && q <= shot.records.len() && #[trigger] retained_by(
                retained,
                q as i32,
            ) ==> shot.records[q - 1] == y.shots[j].records[q - 1]
    } by {
        let shot = runtime.shot(j, j);
        let a = runtime.block(first).shots[j];
        assert(live[j] == j);
        assert(agrees(program, plan, retained, i, base_x, base_y, a, y.shots[j]));
        assert(shot.lanes =~= a.lanes);
        assert(shot.exps =~= a.exps);
        assert(shot.detectors =~= a.detectors);
        assert(shot.records =~= a.records);
        assert forall|q: int|
            0 < q <= program.nrecords && q <= shot.records.len() && #[trigger] retained_by(
                retained,
                q as i32,
            ) implies shot.records[q - 1] == y.shots[j].records[q - 1] by {
            assert(record_used_from(program, retained, q as i32, i));
        }
    }
}

/// The last use of an expression tells from where on it is not used.
proof fn lemma_expression_uses(plan: PresampledExpressionPlan, e: int, i: int)
    requires
        0 <= i,
        last_uses(
            plan.instruction_expressions@,
            plan.block_expression_last_use_by_index@,
            plan.block_expressions@.len() as int,
        ),
        forall|m: int|
            0 <= m < plan.instruction_expressions@.len() ==> (
            #[trigger] plan.instruction_expressions@[m]).block_expression_index
                < plan.block_expressions@.len(),
        expression_used_from(plan, e, i),
    ensures
        0 <= e < plan.block_expressions@.len(),
        plan.block_expression_last_use_by_index@[e] >= i,
{
    let m = choose|m: int|
        i <= m < plan.instruction_expressions@.len() && (
        #[trigger] plan.instruction_expressions@[m]).block_expression_index == e;
    assert(plan.instruction_expressions@[m].block_expression_index == e);
    let last = plan.block_expression_last_use_by_index@[e];
    if last < m {
        assert(plan.instruction_expressions@[m].block_expression_index != e);
    }
}

/// What can stop a postselected run before its first instruction.
pub open spec fn select_refusal<A: Copy>(
    runtime: &BatchFactoredExecutorState<A>,
    program: &FactoredInstructionProgram,
    plan: PresampledExpressionPlan,
    retained: Seq<Vec<i32>>,
) -> Option<Seq<char>> {
    if runtime.n != program.n {
        Some("batch executor state does not match program"@)
    } else if plan.instruction_expressions@.len() != program.instructions@.len() {
        Some("batch presampled expression plan does not match program"@)
    } else if plan.block_expression_last_use_by_index@.len() != plan.block_expressions@.len() {
        Some("batch presampled expression last-use table does not match expression plan"@)
    } else {
        tables_refusal(program, retained)
    }
}

/// Runs the program on a block. Shots whose selected detectors come out unexpectedly
/// are gone; the others are as if they had run alone.
#[verifier::rlimit(100)]
#[verifier::spinoff_prover]
pub fn execute_batch_postselected_in_place<'a, A: Copy, K: ActiveKernels<A>>(
    k: &K,
    runtime: &mut BatchFactoredExecutorState<A>,
    program: &FactoredInstructionProgram,
    expression_plan: &PresampledExpressionPlan,
    expression_block: &PresampledExpressionBlock,
    first_sample_shot: usize,
    scratch: &mut BatchDetectorPostselectionScratch,
    options: &BatchDetectorPostselectionOptions<'a>,
) -> (r: Result<BatchDetectorPostselectionResult>)
    requires
        lawful::<A, K>(k),
        old(runtime).ready(),
        executable(program, old(runtime).batch_words as int),
        single_assignment(program),
        unclaimed(program, 0, old(runtime).block(first_sample_shot as int)),
        program.nsymbols < i32::MAX,
        program.nrecords < i32::MAX,
        old(runtime).nsymbols == program.nsymbols,
        old(runtime).nrecords <= i32::MAX,
        old(runtime).active_components_enabled == program.use_active_components,
        expression_plan.instruction_expressions@.len() == program.instructions@.len() ==> plan_fits(
            *expression_plan,
            program,
        ),
        expression_block.expression_words@.len() == expression_plan.block_expressions@.len()
            * expression_block.shot_words,
        expression_plan.block_expressions@.len() * old(runtime).batch_words <= usize::MAX,
        first_sample_shot + old(runtime).batches + 64 <= usize::MAX,
    ensures
        final(runtime).same_frame(old(runtime)),
        match r {
            Ok(result) => {
                &&& select_refusal(
                    old(runtime),
                    program,
                    *expression_plan,
                    options.retained(),
                ) is None
                &&& final(runtime).ready()
                &&& match select_run(
                    k,
                    table_bits(
                        expression_block.expression_words@,
                        expression_block.shot_words as int,
                    ),
                    *expression_plan,
                    program,
                    options.expected_detectors@,
                    0,
                    program.instructions@.len() as int,
                    old(runtime).block(first_sample_shot as int),
                ) {
                    Ok(left) => {
                        &&& result.accepted == left.shots.len()
                        &&& result.discarded == old(runtime).active_shots - left.shots.len()
                        &&& leaves(program, options.retained(), final(runtime), left)
                        &&& result.discarded == 0 ==> final(runtime).block(first_sample_shot as int)
                            == left
                    },
                    Err(_) => false,
                }
            },
            Err(e) => {
                ||| select_refusal(old(runtime), program, *expression_plan, options.retained())
                    == Some(e@) && *final(runtime) == *old(runtime)
                ||| select_refusal(
                    old(runtime),
                    program,
                    *expression_plan,
                    options.retained(),
                ) is None && first_sample_shot + old(runtime).active_shots > expression_block.nshots
                    && e@ == "batch presampled expression source range is out of bounds"@
                ||| select_refusal(
                    old(runtime),
                    program,
                    *expression_plan,
                    options.retained(),
                ) is None && exists|j: int| #[trigger]
                    select_stops(
                        k,
                        table_bits(
                            expression_block.expression_words@,
                            expression_block.shot_words as int,
                        ),
                        *expression_plan,
                        program,
                        options.expected_detectors@,
                        0,
                        j,
                        old(runtime).block(first_sample_shot as int),
                        e@,
                    )
            },
        },
{
    if runtime.n != program.n || runtime.k + runtime.ndormant != runtime.n {
        return Err(TicitError::new("batch executor state does not match program"));
    }
    if expression_plan.instruction_expressions.len() != program.instructions.len() {
        return Err(TicitError::new("batch presampled expression plan does not match program"));
    }
    if expression_plan.block_expression_last_use_by_index.len()
        != expression_plan.block_expressions.len() {
        return Err(
            TicitError::new(
                "batch presampled expression last-use table does not match expression plan",
            ),
        );
    }
    match prepare_batch_detector_postselection_scratch_for_program(
        scratch,
        runtime,
        program,
        options,
    ) {
        Err(e) => {
            return Err(e);
        },
        Ok(_) => {},
    }
    clear_bits(&mut scratch.dead_bits);
    scratch.dead_count = 0;
    if runtime.active_shots == 0 {
        return Ok(BatchDetectorPostselectionResult { discarded: 0, accepted: 0 });
    }
    let ghost plan = *expression_plan;
    let ghost retained = options.retained();
    let ghost expected = options.expected_detectors@;
    let ghost first = first_sample_shot as int;
    let ghost table = table_bits(
        expression_block.expression_words@,
        expression_block.shot_words as int,
    );
    let ghost start = old(runtime).block(first);
    let ghost mut y = start;
    let n: usize = program.instructions.len();
    let total: usize = runtime.active_shots;
    let stride: usize = runtime.batch_words;
    let mut discarded: usize = 0;
    let mut materialized: bool = false;
    let mut work: Vec<u64> = Vec::new();
    let mut idx: usize = 0;
    proof {
        lemma_live_all(scratch.dead_bits@, total as int);
        let live = live_list(scratch.dead_bits@, total as int);
        assert forall|j: int| 0 <= j < live.len() implies 0 <= #[trigger] live[j] < start.shots.len()
            && agrees(
            program,
            plan,
            retained,
            0,
            table,
            table,
            start.shots[live[j]],
            y.shots[j],
        ) by {}
    }
    while idx < n
        invariant
            idx <= n,
            n == program.instructions@.len(),
            stride == runtime.batch_words,
            total == old(runtime).active_shots,
            first == first_sample_shot,
            plan == *expression_plan,
            retained == options.retained(),
            expected == options.expected_detectors@,
            start == old(runtime).block(first),
            table == table_bits(
                expression_block.expression_words@,
                expression_block.shot_words as int,
            ),
            lawful::<A, K>(k),
            runtime.ready(),
            runtime.same_frame(old(runtime)),
            executable(program, stride as int),
            single_assignment(program),
            program.nsymbols < i32::MAX,
            program.nrecords < i32::MAX,
            runtime.nsymbols == program.nsymbols,
            runtime.active_components_enabled == program.use_active_components,
            plan.instruction_expressions@.len() == n,
            plan.block_expression_last_use_by_index@.len() == plan.block_expressions@.len(),
            plan_fits(plan, program),
            expression_block.expression_words@.len() == plan.block_expressions@.len()
                * expression_block.shot_words,
            plan.block_expressions@.len() * stride <= usize::MAX,
            first_sample_shot + runtime.batches + 64 <= usize::MAX,
            select_refusal(old(runtime), program, plan, retained) is None,
            scratch.tables_for(program, retained),
            scratch.tracks(runtime),
            !materialized ==> runtime.active_shots == total,
            materialized ==> scratch.expression_words@.len() >= plan.block_expressions@.len()
                * stride,
            select_run(k, table, plan, program, expected, 0, idx as int, start) == Ok::<
                Block<A>,
                Seq<char>,
            >(y),
            y.shots.len() > 0,
            discarded == total - y.shots.len(),
            discarded == 0 ==> !materialized && scratch.dead_count == 0 && runtime.block(first) == y,
            in_step(
                program,
                plan,
                retained,
                idx as int,
                if materialized {
                    table_bits(scratch.expression_words@, stride as int)
                } else {
                    table
                },
                table,
                runtime,
                if materialized {
                    0
                } else {
                    first
                },
                scratch.dead_bits@,
                y,
            ),
        decreases n - idx,
    {
        let ghost i = idx as int;
        if should_compact_dead_before_instruction(
            runtime,
            scratch.dead_count,
            options,
            &program.instructions[idx],
        ) {
            let ghost before = *runtime;
            let ghost dead = scratch.dead_bits@;
            let ghost from_base = if materialized {
                table_bits(scratch.expression_words@, stride as int)
            } else {
                table
            };
            let ghost from_first = if materialized {
                0
            } else {
                first
            };
            if !materialized {
                match materialize_expression_workspace(
                    &mut scratch.expression_words,
                    expression_plan,
                    expression_block,
                    stride,
                    runtime.active_shots,
                    first_sample_shot,
                ) {
                    Err(e) => {
                        return Err(e);
                    },
                    Ok(_) => {},
                }
                materialized = true;
            }
            let ghost words = scratch.expression_words@;
            let ghost tables = *scratch;
            compact_dead_shots_if_needed(
                runtime,
                scratch,
                idx as i32,
                Some(&expression_plan.block_expression_last_use_by_index),
            );
            proof {
                let live = live_list(dead, before.active_shots as int);
                let after_base = table_bits(scratch.expression_words@, stride as int);
                lemma_live_list(dead, before.active_shots as int);
                assert forall|e: int, j: int|
                    expression_used_from(plan, e, i) && 0 <= j < live.len() implies (
                #[trigger] after_base(e, j)) == from_base(e, from_first + live[j]) by {
                    lemma_expression_uses(plan, e, i);
                    let rows = plan.block_expressions@.len() as int;
                    lemma_has_row(scratch.expression_words@, stride as int, rows, e);
                    lemma_has_row(words, stride as int, rows, e);
                    lemma_has_row(
                        expression_block.expression_words@,
                        expression_block.shot_words as int,
                        rows,
                        e,
                    );
                    assert(0 <= live[j] < before.active_shots);
                    assert(plane_bit(scratch.expression_words@, stride as int, e, j) == plane_bit(
                        words,
                        stride as int,
                        e,
                        live[j],
                    ));
                }
                lemma_compacted_follows(
                    program,
                    plan,
                    retained,
                    i,
                    from_base,
                    after_base,
                    table,
                    &before,
                    runtime,
                    from_first,
                    &tables,
                    scratch.keep_bits@,
                    dead,
                    y,
                );
                lemma_live_all(scratch.dead_bits@, runtime.active_shots as int);
            }
        }
        let ghost before_dead = scratch.dead_bits@;
        let ghost shots = runtime.active_shots as int;
        let ghost base = if materialized {
            table_bits(scratch.expression_words@, stride as int)
        } else {
            table
        };
        let ghost at = if materialized {
            0
        } else {
            first
        };
        proof {
            lemma_live_list(before_dead, shots);
        }
        let source: BatchSignSource = if materialized {
            BatchSignSource::Workspace {
                plan: expression_plan,
                words: scratch.expression_words.as_slice(),
                stride_words: stride,
            }
        } else {
            BatchSignSource::Block {
                plan: expression_plan,
                block: expression_block,
                first_sample_shot,
            }
        };
        let done: Result<(usize, usize)> = execute_postselected_step(
            k,
            runtime,
            program,
            &source,
            idx,
            &mut scratch.dead_bits,
            scratch.dead_count,
            options.expected_detectors,
            &mut work,
            Ghost(retained),
            Ghost(table),
            Ghost(y),
        );
        match done {
            Err(e) => {
                proof {
                    let j = choose|j: int| #[trigger]
                        select_stops(k, table, plan, program, expected, i, j, y, e@);
                    lemma_select_stops_later(k, table, plan, program, expected, i, j, start, y, e@);
                }
                return Err(e);
            },
            Ok((consumed, gone)) => {
                proof {
                    lemma_live_list(scratch.dead_bits@, shots);
                    let next = select_run(k, table, plan, program, expected, i, i + consumed, y)->Ok_0;
                    lemma_select_split(k, table, plan, program, expected, 0, i, i + consumed, start);
                    y = next;
                }
                scratch.dead_count = scratch.dead_count + gone;
                discarded = discarded + gone;
                idx = idx + consumed;
                if scratch.dead_count >= runtime.active_shots {
                    let ghost full = *runtime;
                    runtime.active_shots = 0;
                    proof {
                        assert forall|c: i32| #[trigger] runtime.assigned(c) && c > 0 implies c
                            <= runtime.nsymbols by {
                            assert(full.assigned(c));
                        }
                        crate::refine::lemma_same_active(&full, runtime);
                        assert(runtime.known() =~= full.known());
                        assert(runtime.parts() =~= full.parts());
                        let held = full.block(
                            if materialized {
                                0
                            } else {
                                first
                            },
                        );
                        assert(held.parts == y.parts && held.known == y.known);
                        lemma_select_split(k, table, plan, program, expected, 0, idx as int, n as int, start);
                    }
                    return Ok(BatchDetectorPostselectionResult { discarded, accepted: 0 });
                }
            },
        }
    }
    let ghost before = *runtime;
    let ghost dead = scratch.dead_bits@;
    let ghost tables = *scratch;
    let last_use: Option<&Vec<i32>> = if materialized {
        Some(&expression_plan.block_expression_last_use_by_index)
    } else {
        None
    };
    compact_dead_shots_if_needed(runtime, scratch, n as i32, last_use);
    proof {
        let base = if materialized {
            table_bits(tables.expression_words@, stride as int)
        } else {
            table
        };
        let at = if materialized {
            0
        } else {
            first
        };
        let shots = before.active_shots as int;
        lemma_live_list(dead, shots);
        if tables.dead_count == 0 {
            lemma_live_full(dead, shots);
            lemma_live_all(dead, shots);
            lemma_leaves(program, plan, retained, n as int, base, table, runtime, at, y);
        } else {
            assert forall|e: int, j: int|
                expression_used_from(plan, e, n as int) && 0 <= j < live_list(dead, shots).len() implies (
            #[trigger] table(e, j)) == base(e, at + live_list(dead, shots)[j]) by {
                lemma_expression_uses(plan, e, n as int);
            }
            lemma_compacted_follows(
                program,
                plan,
                retained,
                n as int,
                base,
                table,
                table,
                &before,
                runtime,
                at,
                &tables,
                scratch.keep_bits@,
                dead,
                y,
            );
            lemma_leaves(program, plan, retained, n as int, table, table, runtime, 0, y);
        }
    }
    Ok(BatchDetectorPostselectionResult { discarded, accepted: runtime.active_shots })
}

} // verus!
