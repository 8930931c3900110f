//! Where the expression bits of an instruction come from: the immutable table of a
//! whole chunk, sliced to the block at hand, or a copy that is compacted along with
//! the shots.
use vstd::prelude::*;
use crate::bits::{row_bit, row_bits, word_bit};
use crate::errors::{Result, TicitError};
use crate::executor::{resize_list, BatchFactoredExecutorState};
use crate::exogenous::live_word_mask_for_shots;
use crate::model::{shot_values, sign_at, sign_refusal, signs};
use crate::planes::{lemma_plane_index, plane_bit, plane_offset};
use crate::presampled_expression::{
    presampled_expression_block_offset, PresampledExpressionBlock, PresampledExpressionPlan,
};
use crate::symbolic::lemma_xor_of_ext;
use crate::symbols::{all_known, plan_refusal, xor_symbolic_bool_batch_into};

verus! {

broadcast use crate::bits::group_word_bits;

/// A source of expression bits.
pub enum BatchSignSource<'a> {
    /// The table of a chunk; the block starts at `first_sample_shot`.
    Block {
        plan: &'a PresampledExpressionPlan,
        block: &'a PresampledExpressionBlock,
        first_sample_shot: usize,
    },
    /// A copy for the block at hand: `[expression * stride_words + word]`.
    Workspace { plan: &'a PresampledExpressionPlan, words: &'a [u64], stride_words: usize },
}

/// A table bit; clear where the table has no such row.
pub open spec fn table_bits(words: Seq<u64>, stride: int) -> spec_fn(int, int) -> bool {
    |e: int, t: int| has_row(words, stride, e) && plane_bit(words, stride, e, t)
}

/// The table has row `e`.
pub open spec fn has_row(words: Seq<u64>, stride: int, e: int) -> bool {
    0 <= e && e * stride + stride <= words.len()
}

/// The rows of a table.
pub proof fn lemma_has_row(words: Seq<u64>, stride: int, rows: int, e: int)
    requires
        0 <= e < rows,
        0 <= stride,
        rows * stride <= words.len(),
    ensures
        has_row(words, stride, e),
{
    assert(e * stride + stride <= rows * stride) by (nonlinear_arith)
        requires
            0 <= e < rows,
            0 <= stride,
    ;
}

/// Every residual is in canonical form.
pub open spec fn residuals_wf(plan: PresampledExpressionPlan) -> bool {
    forall|i: int|
        0 <= i < plan.instruction_expressions@.len() ==> (
        #[trigger] plan.instruction_expressions@[i]).residual_plan.wf()
}

impl<'a> BatchSignSource<'a> {
    pub open spec fn plan_of(&self) -> PresampledExpressionPlan {
        match *self {
            BatchSignSource::Block { plan, .. } => *plan,
            BatchSignSource::Workspace { plan, .. } => *plan,
        }
    }

    /// The presampled bit of an expression in a column.
    pub open spec fn base(&self) -> spec_fn(int, int) -> bool {
        match *self {
            BatchSignSource::Block { block, .. } => table_bits(
                block.expression_words@,
                block.shot_words as int,
            ),
            BatchSignSource::Workspace { words, stride_words, .. } => table_bits(
                words@,
                stride_words as int,
            ),
        }
    }

    /// The column of the first shot.
    pub open spec fn first(&self) -> int {
        match *self {
            BatchSignSource::Block { first_sample_shot, .. } => first_sample_shot as int,
            BatchSignSource::Workspace { .. } => 0,
        }
    }

    /// The source has a row for every expression of its plan.
    pub open spec fn serves<A: Copy>(&self, runtime: &BatchFactoredExecutorState<A>) -> bool {
        &&& residuals_wf(self.plan_of())
        &&& match *self {
            BatchSignSource::Block { plan, block, first_sample_shot } => {
                &&& block.expression_words@.len() == plan.block_expressions@.len()
                    * block.shot_words
                &&& first_sample_shot + runtime.batches + 64 <= usize::MAX
            },
            BatchSignSource::Workspace { plan, words, stride_words } => {
                &&& stride_words == runtime.batch_words
                &&& words@.len() >= plan.block_expressions@.len() * stride_words
            },
        }
    }
}

proof fn lemma_shift_bits(w: u64, off: u64, j: u64)
    by (bit_vector)
    requires
        off < 64,
        j < 64,
    ensures
        (((w >> off) >> j) & 1u64 == 1u64) == (j + off < 64 && (w >> ((j + off) as u64)) & 1u64
            == 1u64),
        (((w << off) >> j) & 1u64 == 1u64) == (j >= off && (w >> ((j - off) as u64)) & 1u64 == 1u64),
{
}

/// Bits of a word moved down by `off`.
pub proof fn lemma_shift_down(w: u64, off: int, j: int)
    requires
        0 <= off < 64,
        0 <= j < 64,
    ensures
        word_bit(w >> (off as u64), j) == (j + off < 64 && word_bit(w, j + off)),
{
    lemma_shift_bits(w, off as u64, j as u64);
}

/// Bits of a word moved up by `off`.
pub proof fn lemma_shift_up(w: u64, off: int, j: int)
    requires
        0 <= off < 64,
        0 <= j < 64,
    ensures
        word_bit(w << (off as u64), j) == (j >= off && word_bit(w, j - off)),
{
    lemma_shift_bits(w, off as u64, j as u64);
}

/// 64 columns of an expression, from `first_sample_shot + 64 * dest_word` on. Only
/// live shots keep their bit.
pub fn expression_slice_word(
    block: &PresampledExpressionBlock,
    block_expression_index: usize,
    first_sample_shot: usize,
    active_shots: usize,
    dest_word: usize,
) -> (r: u64)
    requires
        block.expression_words@.len() >= (block_expression_index + 1) * block.shot_words,
        first_sample_shot / 64 + dest_word + 1 <= usize::MAX,
    ensures
        forall|j: int|
            0 <= j < 64 ==> #[trigger] word_bit(r, j) == (64 * dest_word + j < active_shots && plane_bit(
                block.expression_words@,
                block.shot_words as int,
                block_expression_index as int,
                first_sample_shot + 64 * dest_word + j,
            )),
{
    let offset: usize = first_sample_shot % 64;
    let src_word: usize = first_sample_shot / 64 + dest_word;
    let stride: usize = block.shot_words;
    let ghost st = stride as int;
    let ghost e = block_expression_index as int;
    let ghost words = block.expression_words@;
    let len: usize = block.expression_words.len();
    assert(e * st + st == (e + 1) * st) by (nonlinear_arith);
    assert(0 <= e * st) by (nonlinear_arith)
        requires
            0 <= e,
            0 <= st,
    ;
    let mut out: u64 = 0;
    if src_word < stride {
        let at: usize = presampled_expression_block_offset(block, block_expression_index, src_word);
        out = block.expression_words[at] >> (offset as u64);
    }
    let ghost low = out;
    if offset != 0 && src_word + 1 < stride {
        let at: usize = presampled_expression_block_offset(
            block,
            block_expression_index,
            src_word + 1,
        );
        let up: u64 = (64 - offset) as u64;
        out = out | (block.expression_words[at] << up);
    }
    let mask: u64 = live_word_mask_for_shots(active_shots, dest_word);
    proof {
        assert forall|j: int| 0 <= j < 64 implies #[trigger] word_bit(out & mask, j) == (64 * dest_word
            + j < active_shots && plane_bit(words, st, e, first_sample_shot + 64 * dest_word + j)) by {
            let t = first_sample_shot + 64 * dest_word + j;
            let off = offset as int;
            assert(word_bit(mask, j) == (64 * dest_word + j < active_shots));
            assert(t == 64 * src_word + off + j);
            if src_word < stride {
                lemma_shift_down(words[e * st + src_word], off, j);
            }
            if off != 0 && src_word + 1 < stride {
                lemma_shift_up(words[e * st + src_word + 1], 64 - off, j);
            }
            if off + j < 64 {
                assert(t / 64 == src_word && t % 64 == off + j);
            } else {
                assert(t / 64 == src_word + 1 && t % 64 == off + j - 64);
            }
        }
    }
    out & mask
}

impl<'a> BatchSignSource<'a> {
    /// The presampled bits of an expression, for the live shots.
    fn slice<A: Copy>(&self, expression: usize, runtime: &BatchFactoredExecutorState<A>, out: &mut Vec<u64>)
        requires
            self.serves(runtime),
            runtime.planes_wf(),
            expression < self.plan_of().block_expressions@.len(),
            old(out)@.len() >= runtime.batch_words,
        ensures
            final(out)@.len() == old(out)@.len(),
            forall|i: int|
                0 <= i < 64 * final(out)@.len() ==> #[trigger] row_bit(final(out)@, i) == (i
                    < runtime.active_shots && self.base()(expression as int, self.first() + i)),
    {
        let n: usize = out.len();
        let live: usize = runtime.live_word_count();
        let ghost e = expression as int;
        proof {
            match *self {
                BatchSignSource::Block { plan, block, .. } => {
                    lemma_has_row(
                        block.expression_words@,
                        block.shot_words as int,
                        plan.block_expressions@.len() as int,
                        e,
                    );
                },
                BatchSignSource::Workspace { plan, words, stride_words } => {
                    lemma_has_row(
                        words@,
                        stride_words as int,
                        plan.block_expressions@.len() as int,
                        e,
                    );
                },
            }
        }
        let mut word: usize = 0;
        while word < n
            invariant
                word <= n,
                n == out@.len(),
                live == runtime.live_words(),
                e == expression,
                match *self {
                    BatchSignSource::Block { block, .. } => has_row(
                        block.expression_words@,
                        block.shot_words as int,
                        e,
                    ),
                    BatchSignSource::Workspace { words, stride_words, .. } => has_row(
                        words@,
                        stride_words as int,
                        e,
                    ),
                },
                self.serves(runtime),
                runtime.planes_wf(),
                expression < self.plan_of().block_expressions@.len(),
                forall|i: int|
                    0 <= i < 64 * word ==> #[trigger] row_bit(out@, i) == (i < runtime.active_shots
                        && self.base()(e, self.first() + i)),
            decreases n - word,
        {
            let ghost before = out@;
            let value: u64 = if word >= live {
                0
            } else {
                match self {
                    BatchSignSource::Block { plan, block, first_sample_shot } => {
                        proof {
                            let st = block.shot_words as int;
                            let count = plan.block_expressions@.len() as int;
                            assert((e + 1) * st <= count * st) by (nonlinear_arith)
                                requires
                                    e + 1 <= count,
                                    0 <= st,
                            ;
                        }
                        expression_slice_word(
                            block,
                            expression,
                            *first_sample_shot,
                            runtime.active_shots,
                            word,
                        )
                    },
                    BatchSignSource::Workspace { plan, words, stride_words } => {
                        proof {
                            lemma_plane_index(
                                *stride_words as int,
                                plan.block_expressions@.len() as int,
                                e,
                                word as int,
                            );
                        }
                        let len: usize = words.len();
                        let mask: u64 = runtime.live_word_mask(word);
                        words[plane_offset(*stride_words, expression, word)] & mask
                    },
                }
            };
            out.set(word, value);
            proof {
                assert forall|i: int| 0 <= i < 64 * (word + 1) implies #[trigger] row_bit(out@, i) == (i
                    < runtime.active_shots && self.base()(e, self.first() + i)) by {
                    if i < 64 * word {
                        assert(row_bit(before, i) == (i < runtime.active_shots && self.base()(
                            e,
                            self.first() + i,
                        )));
                    } else {
                        let j = i % 64;
                        assert(i == 64 * word + j);
                        assert(word_bit(value, j) == row_bit(out@, i));
                    }
                }
            }
            word += 1;
        }
    }

    /// Fills `out` with the signs or outcomes of an instruction: the presampled
    /// bits, corrected by the residual of the symbols.
    pub fn eval<A: Copy>(
        &self,
        instruction_index: usize,
        runtime: &BatchFactoredExecutorState<A>,
        out: &mut Vec<u64>,
    ) -> (r: Result<()>)
        requires
            self.serves(runtime),
            runtime.planes_wf(),
        ensures
            final(out)@.len() >= old(out)@.len(),
            match r {
                Ok(_) => {
                    &&& final(out)@.len() >= runtime.batch_words
                    &&& sign_refusal(
                        self.plan_of(),
                        instruction_index as int,
                        runtime.block(self.first()),
                    ) is None
                    &&& row_bits(final(out)@, runtime.active_shots as int) == signs(
                        self.base(),
                        self.plan_of(),
                        instruction_index as int,
                        runtime.block(self.first()),
                    )
                },
                Err(e) => sign_refusal(
                    self.plan_of(),
                    instruction_index as int,
                    runtime.block(self.first()),
                ) == Some(e@),
            },
    {
        let plan: &PresampledExpressionPlan = match self {
            BatchSignSource::Block { plan, .. } => plan,
            BatchSignSource::Workspace { plan, .. } => plan,
        };
        if instruction_index >= plan.instruction_expressions.len() {
            return Err(TicitError::new("batch presampled expression plan does not match program"));
        }
        let expression = &plan.instruction_expressions[instruction_index];
        if expression.block_expression_index >= plan.block_expressions.len() {
            return Err(
                TicitError::new(
                    "batch presampled expression references an out-of-range block expression",
                ),
            );
        }
        let words: usize = runtime.batch_words;
        if out.len() < words {
            resize_list(out, words, 0u64);
        }
        self.slice(expression.block_expression_index, runtime, out);
        let ghost sliced = out@;
        assert(plan.instruction_expressions@[instruction_index as int].residual_plan.wf());
        match xor_residual(out, &expression.residual_plan, runtime) {
            Err(e) => Err(e),
            Ok(_) => {
                proof {
                    let b = runtime.block(self.first());
                    let residual = expression.residual_plan;
                    let all = signs(self.base(), *plan, instruction_index as int, b);
                    assert forall|s: int| 0 <= s < runtime.active_shots implies row_bit(out@, s)
                        == all[s] by {
                        let shot = b.shots[s];
                        lemma_xor_of_ext(
                            residual.conditions@,
                            runtime.valuation(s),
                            shot_values(shot),
                        );
                        assert(row_bit(sliced, s) == (s < runtime.active_shots && self.base()(
                            expression.block_expression_index as int,
                            self.first() + s,
                        )));
                        assert(all[s] == sign_at(
                            self.base(),
                            *plan,
                            instruction_index as int,
                            shot,
                        ));
                    }
                    assert(row_bits(out@, runtime.active_shots as int) =~= all);
                }
                Ok(())
            },
        }
    }
}

/// XORs the residual of an expression into a row; a residual without conditions
/// adds nothing.
fn xor_residual<A: Copy>(
    out: &mut Vec<u64>,
    residual: &crate::symbolic::SymbolicBoolEvaluationPlan,
    runtime: &BatchFactoredExecutorState<A>,
) -> (r: Result<()>)
    requires
        runtime.planes_wf(),
        residual.wf(),
        old(out)@.len() >= runtime.batch_words,
    ensures
        final(out)@.len() == old(out)@.len(),
        match r {
            Ok(_) => {
                &&& plan_refusal(runtime.nsymbols as int, runtime.known(), *residual) is None
                &&& all_known(runtime.known(), residual.conditions@)
                &&& forall|i: int|
                    0 <= i < runtime.active_shots ==> #[trigger] row_bit(final(out)@, i) == (row_bit(
                        old(out)@,
                        i,
                    ) != (residual.conditions@.len() > 0 && residual.value(runtime.valuation(i))))
            },
            Err(e) => plan_refusal(runtime.nsymbols as int, runtime.known(), *residual) == Some(e@),
        },
{
    if residual.conditions.len() == 0 {
        return Ok(());
    }
    xor_symbolic_bool_batch_into(out, residual, runtime)
}

} // verus!
