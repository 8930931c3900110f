//! The table that the draws of a chunk give: every block expression for every shot.
use vstd::prelude::*;
use crate::bits::{row_bit, symbol_bit, words_for_bits};
use crate::driver::{draws_fill, tabulated};
use crate::exogenous::{
    categorical_has, drawn_bit, family_count, family_has, is_exogenous, rare_has, sets_have,
    ExogenousDraws, PackedPresampledExogenous,
};
use crate::planes::plane_bit;
use crate::presampled_expression::{
    bulk_plan, chain_bit, expresses, law_parent_deltas_keep_the_value, lemma_selected,
    plans_program, same_partial, selected, shot_valuation, PresampledExpressionBlock,
    PresampledExpressionPlan,
};
use crate::program::FactoredInstructionProgram;
use crate::signs::{has_row, lemma_has_row, table_bits};
use crate::symbolic::{canonical, lemma_xor_of_ext, xor_of};

verus! {

/// The family that draws a condition.
pub open spec fn family_of(program: &FactoredInstructionProgram, c: i32) -> int {
    choose|j: int| 0 <= j < family_count(program) && #[trigger] family_has(program, j, c)
}

/// The value that the draws give to a condition.
pub open spec fn noise_bit(
    program: &FactoredInstructionProgram,
    draws: ExogenousDraws,
    shots: int,
    c: i32,
    i: int,
) -> bool {
    drawn_bit(program, draws, shots, family_of(program, c), c, i)
}

pub open spec fn noise_valuation(
    program: &FactoredInstructionProgram,
    draws: ExogenousDraws,
    shots: int,
    i: int,
) -> spec_fn(i32) -> bool {
    |c: i32| noise_bit(program, draws, shots, c, i)
}

/// The value of every block expression for every shot. Past the last shot the
/// constants stop.
pub open spec fn noise_table(
    plan: PresampledExpressionPlan,
    program: &FactoredInstructionProgram,
    draws: ExogenousDraws,
    shots: int,
) -> spec_fn(int, int) -> bool {
    |e: int, t: int|
        0 <= e < plan.block_expressions@.len() && 0 <= t < 64 * words_for_bits(shots) && ((
        plan.block_expressions@[e].constant && t < shots) != xor_of(
            plan.block_expressions@[e].exogenous_conditions@,
            noise_valuation(program, draws, shots, t),
        ))
}

/// A condition that the presampler assigns is drawn by a family.
pub proof fn lemma_exogenous_family(program: &FactoredInstructionProgram, c: i32)
    requires
        is_exogenous(program, c),
    ensures
        0 <= family_of(program, c) < family_count(program),
        family_has(program, family_of(program, c), c),
{
    let nd = program.sampled_categorical_distributions@.len() as int;
    let nr = program.sampled_rare_categorical_groups@.len() as int;
    let nb = program.sampled_bernoulli_conditions@.len() as int;
    let nl = program.sampled_low_probability_bernoulli_groups@.len() as int;
    let j = if categorical_has(program, nd, c) {
        choose|j: int|
            0 <= j < nd && (
            #[trigger] program.sampled_categorical_distributions@[j]).conditions@.contains(c)
    } else if program.sampled_bernoulli_conditions@.contains(c) {
        nd + nr + choose|b: int| 0 <= b < nb && program.sampled_bernoulli_conditions@[b] == c
    } else if rare_has(program, nr, c) {
        nd + choose|m: int|
            0 <= m < nr && sets_have(
                (#[trigger] program.sampled_rare_categorical_groups@[m]).conditions@,
                program.sampled_rare_categorical_groups@[m].conditions@.len() as int,
                c,
            )
    } else {
        nd + nr + nb + choose|m: int|
            0 <= m < nl && (
            #[trigger] program.sampled_low_probability_bernoulli_groups@[m]).conditions@.contains(c)
    };
    assert(family_has(program, j, c));
}

/// The conditions of a block expression are exogenous.
pub proof fn lemma_block_conditions(
    plan: PresampledExpressionPlan,
    program: &FactoredInstructionProgram,
    samples: PackedPresampledExogenous,
    e: int,
    q: int,
)
    requires
        program.wf(),
        samples.prepared_for(program),
        plans_program(plan, program, samples.exogenous_assigned_words@),
        0 <= e < plan.block_expressions@.len(),
        0 <= q < plan.block_expressions@[e].exogenous_conditions@.len(),
    ensures
        is_exogenous(program, plan.block_expressions@[e].exogenous_conditions@[q]),
{
    let words = samples.exogenous_assigned_words@;
    let exo = plan.block_expressions@[e].exogenous_conditions@;
    let last = plan.block_expression_last_use_by_index@[e] as int;
    let expression = plan.instruction_expressions@[last];
    let ins = program.instructions@[last];
    assert(ins.wf());
    assert(expresses(expression, ins, words));
    assert(same_partial(
        plan.block_expressions@[expression.block_expression_index as int],
        expression,
    ));
    match bulk_plan(ins) {
        Some(source) => {
            lemma_selected(source.conditions@, words, true);
            assert(exo.contains(exo[q]));
            assert(row_bit(words, symbol_bit(exo[q] as int)));
            assert(canonical(exo));
        },
        None => {},
    }
}

/// The evaluated table is the one that the draws give.
pub proof fn lemma_noise_table(
    plan: PresampledExpressionPlan,
    program: &FactoredInstructionProgram,
    draws: ExogenousDraws,
    samples: PackedPresampledExogenous,
    block: PresampledExpressionBlock,
)
    requires
        program.wf(),
        tabulated(program, samples, plan, block),
        draws_fill(program, draws, samples),
    ensures
        table_bits(block.expression_words@, block.shot_words as int) == noise_table(
            plan,
            program,
            draws,
            samples.nshots as int,
        ),
{
    let blocks = plan.block_expressions@;
    let shots = samples.nshots as int;
    let st = block.shot_words as int;
    let words = block.expression_words@;
    let f = table_bits(words, st);
    let g = noise_table(plan, program, draws, shots);
    assert forall|e: int, t: int| #[trigger] f(e, t) == g(e, t) by {
        if 0 <= e < blocks.len() && 0 <= t < 64 * st {
            lemma_has_row(words, st, blocks.len() as int, e);
            assert(plane_bit(words, st, e, t) == chain_bit(blocks, samples, e, t));
            law_parent_deltas_keep_the_value(blocks, samples, e, t);
            let exo = blocks[e].exogenous_conditions@;
            assert forall|q: int| 0 <= q < exo.len() implies shot_valuation(samples, t)(
                #[trigger] exo[q],
            ) == noise_valuation(program, draws, shots, t)(exo[q]) by {
                lemma_block_conditions(plan, program, samples, e, q);
                lemma_exogenous_family(program, exo[q]);
                let j = family_of(program, exo[q]);
                assert(family_has(program, j, exo[q]));
                assert(samples.sample_bit(exo[q], t) == drawn_bit(
                    program,
                    draws,
                    shots,
                    j,
                    exo[q],
                    t,
                ));
            }
            lemma_xor_of_ext(
                exo,
                shot_valuation(samples, t),
                noise_valuation(program, draws, shots, t),
            );
        } else if has_row(words, st, e) && plane_bit(words, st, e, t) {
            assert(0 <= t < 64 * st);
            assert(0 < st);
            assert(e * st + st <= blocks.len() * st);
            assert(e < blocks.len()) by (nonlinear_arith)
                requires
                    e * st + st <= blocks.len() * st,
                    0 < st,
            ;
        }
    }
    assert(f =~= g);
}

pub proof fn lemma_selected_ext(c: Seq<i32>, a: Seq<u64>, b: Seq<u64>, wanted: bool)
    requires
        canonical(c),
        forall|x: i32|
            x > 0 ==> #[trigger] row_bit(a, symbol_bit(x as int)) == row_bit(b, symbol_bit(x as int)),
    ensures
        selected(c, a, wanted) == selected(c, b, wanted),
    decreases c.len(),
{
    if c.len() > 0 {
        let rest = c.drop_last();
        assert forall|i: int, j: int| 0 <= i < j < rest.len() implies rest[i] < rest[j] by {
            assert(c[i] < c[j]);
        }
        assert forall|i: int| 0 <= i < rest.len() implies #[trigger] rest[i] > 0 by {
            assert(c[i] > 0);
        }
        lemma_selected_ext(rest, a, b, wanted);
        assert(c[c.len() - 1] > 0);
    }
}

/// The interned expressions depend on which conditions are exogenous, not on how
/// that is stored.
pub proof fn lemma_plans_ext(
    plan: PresampledExpressionPlan,
    program: &FactoredInstructionProgram,
    a: Seq<u64>,
    b: Seq<u64>,
)
    requires
        program.wf(),
        plans_program(plan, program, a),
        forall|x: i32|
            x > 0 ==> #[trigger] row_bit(a, symbol_bit(x as int)) == row_bit(b, symbol_bit(x as int)),
    ensures
        plans_program(plan, program, b),
{
    let expressions = plan.instruction_expressions@;
    let blocks = plan.block_expressions@;
    assert forall|i: int| 0 <= i < expressions.len() implies {
        &&& expresses(#[trigger] expressions[i], program.instructions@[i], b)
        &&& expressions[i].block_expression_index < blocks.len()
        &&& same_partial(blocks[expressions[i].block_expression_index as int], expressions[i])
    } by {
        assert(expresses(expressions[i], program.instructions@[i], a));
        assert(program.instructions@[i].wf());
        match bulk_plan(program.instructions@[i]) {
            Some(source) => {
                lemma_selected_ext(source.conditions@, a, b, true);
                lemma_selected_ext(source.conditions@, a, b, false);
            },
            None => {},
        }
    }
}

} // verus!
