//! What equal calls give: a program has one interned plan as far as execution can
//! tell, so equal draws and seeds give equal rows.
use vstd::prelude::*;
use crate::bits::{lemma_word_ext, row_bit, row_bits, symbol_bit, word_bit, words_for_bits};
use crate::driver::{
    fresh, holds_records, planned, sampled_both, sampled_rows, sampled_shots,
    MeasurementExpectationSamples,
};
use crate::exogenous::{is_exogenous, marks, ExogenousDraws};
use crate::kernels::{one_of, zero_of, ActiveKernels};
use crate::model::{
    detector_outcomes, detector_refusal, run, sign_at, sign_refusal, signs, step, step_whole,
    unit_bits, Block, Shot,
};
use crate::noise::{lemma_plans_ext, noise_table};
use crate::postselect_model::{select_run, select_step};
use crate::presampled_expression::{expresses, plans_program, PresampledExpressionPlan};
use crate::program::{FactoredInstructionProgram, RecordDetector};

verus! {

/// The two plans give instruction `i` the same sign on every shot and refuse it alike.
pub open spec fn alike_at<A>(
    base_p: spec_fn(int, int) -> bool,
    p: PresampledExpressionPlan,
    base_q: spec_fn(int, int) -> bool,
    q: PresampledExpressionPlan,
    i: int,
) -> bool {
    &&& forall|shot: Shot<A>| #[trigger] sign_at(base_p, p, i, shot) == sign_at(base_q, q, i, shot)
    &&& forall|b: Block<A>| #[trigger] sign_refusal(p, i, b) == sign_refusal(q, i, b)
}

/// The two plans do so for every instruction of the program.
pub open spec fn alike<A>(
    base_p: spec_fn(int, int) -> bool,
    p: PresampledExpressionPlan,
    base_q: spec_fn(int, int) -> bool,
    q: PresampledExpressionPlan,
    program: &FactoredInstructionProgram,
) -> bool {
    forall|i: int|
        0 <= i < program.instructions@.len() ==> #[trigger] alike_at::<A>(base_p, p, base_q, q, i)
}

/// A program has one interned plan, as far as execution under the same draws can
/// tell.
pub proof fn lemma_plans_alike<A>(
    program: &FactoredInstructionProgram,
    draws: ExogenousDraws,
    shots: int,
    p: PresampledExpressionPlan,
    q: PresampledExpressionPlan,
)
    requires
        program.wf(),
        planned(program, p),
        planned(program, q),
    ensures
        alike::<A>(
            noise_table(p, program, draws, shots),
            p,
            noise_table(q, program, draws, shots),
            q,
            program,
        ),
{
    let has = |c: i32| is_exogenous(program, c);
    let w = choose|words: Seq<u64>| #[trigger] plans_program(p, program, words) && marks(words, has);
    let v = choose|words: Seq<u64>| #[trigger] plans_program(q, program, words) && marks(words, has);
    assert forall|x: i32| x > 0 implies #[trigger] row_bit(v, symbol_bit(x as int)) == row_bit(
        w,
        symbol_bit(x as int),
    ) by {}
    lemma_plans_ext(q, program, v, w);
    let bp = noise_table(p, program, draws, shots);
    let bq = noise_table(q, program, draws, shots);
    assert forall|i: int| 0 <= i < program.instructions@.len() implies #[trigger] alike_at::<A>(
        bp,
        p,
        bq,
        q,
        i,
    ) by {
        let e = p.instruction_expressions@[i];
        let f = q.instruction_expressions@[i];
        assert(expresses(e, program.instructions@[i], w));
        assert(expresses(f, program.instructions@[i], w));
        assert(e.exogenous_conditions@ =~= f.exogenous_conditions@);
        assert(e.residual_plan.conditions@ =~= f.residual_plan.conditions@);
        let d = p.block_expressions@[e.block_expression_index as int];
        let g = q.block_expressions@[f.block_expression_index as int];
        assert(d.constant == g.constant && d.exogenous_conditions@ == g.exogenous_conditions@);
        assert forall|shot: Shot<A>| #[trigger] sign_at(bp, p, i, shot) == sign_at(bq, q, i, shot) by {
            assert(bp(e.block_expression_index as int, shot.sample) == bq(
                f.block_expression_index as int,
                shot.sample,
            ));
        }
    }
}

/// Alike plans give a block the same signs.
proof fn lemma_signs_alike<A>(
    base_p: spec_fn(int, int) -> bool,
    p: PresampledExpressionPlan,
    base_q: spec_fn(int, int) -> bool,
    q: PresampledExpressionPlan,
    i: int,
)
    requires
        alike_at::<A>(base_p, p, base_q, q, i),
    ensures
        forall|b: Block<A>| #[trigger] signs(base_p, p, i, b) == signs(base_q, q, i, b),
        forall|d: RecordDetector, b: Block<A>|
            #[trigger] detector_refusal(p, d, i, b) == detector_refusal(q, d, i, b),
        forall|d: RecordDetector, b: Block<A>|
            #[trigger] detector_outcomes(base_p, p, d, i, b) == detector_outcomes(base_q, q, d, i, b),
{
    assert forall|b: Block<A>| #[trigger] signs(base_p, p, i, b) == signs(base_q, q, i, b) by {
        assert(signs(base_p, p, i, b) =~= signs(base_q, q, i, b));
    }
    assert forall|d: RecordDetector, b: Block<A>|
        #[trigger] detector_outcomes(base_p, p, d, i, b) == detector_outcomes(base_q, q, d, i, b) by {
        assert(detector_outcomes(base_p, p, d, i, b) =~= detector_outcomes(base_q, q, d, i, b));
    }
}

/// Alike plans make the same of a block.
proof fn lemma_step_alike<A, K: ActiveKernels<A>>(
    k: &K,
    base_p: spec_fn(int, int) -> bool,
    p: PresampledExpressionPlan,
    base_q: spec_fn(int, int) -> bool,
    q: PresampledExpressionPlan,
    program: &FactoredInstructionProgram,
    i: int,
    b: Block<A>,
)
    requires
        alike_at::<A>(base_p, p, base_q, q, i),
    ensures
        step(k, base_p, p, program, i, b) == step(k, base_q, q, program, i, b),
{
    lemma_signs_alike::<A>(base_p, p, base_q, q, i);
    let ins = program.instructions@[i];
    assert(step_whole(k, base_p, p, ins, i, b) == step_whole(k, base_q, q, ins, i, b)) by {
        let x = signs(base_p, p, i, b);
        let y = signs(base_q, q, i, b);
        assert(Seq::new(b.shots.len(), |s: int| unit_bits(x[s])) =~= Seq::new(
            b.shots.len(),
            |s: int| unit_bits(y[s]),
        ));
        assert(Seq::new(b.shots.len(), |s: int| unit_bits(signs(base_p, p, i, b)[s])) =~= Seq::new(
            b.shots.len(),
            |s: int| unit_bits(signs(base_q, q, i, b)[s]),
        ));
    }
}

/// Alike plans make the same of a whole run.
pub proof fn lemma_run_alike<A, K: ActiveKernels<A>>(
    k: &K,
    base_p: spec_fn(int, int) -> bool,
    p: PresampledExpressionPlan,
    base_q: spec_fn(int, int) -> bool,
    q: PresampledExpressionPlan,
    program: &FactoredInstructionProgram,
    from: int,
    end: int,
    b: Block<A>,
)
    requires
        alike::<A>(base_p, p, base_q, q, program),
        0 <= from,
        end <= program.instructions@.len(),
    ensures
        run(k, base_p, p, program, from, end, b) == run(k, base_q, q, program, from, end, b),
    decreases end - from,
{
    if from < end {
        assert(alike_at::<A>(base_p, p, base_q, q, from));
        lemma_step_alike(k, base_p, p, base_q, q, program, from, b);
        match step(k, base_p, p, program, from, b) {
            Ok(next) => {
                lemma_run_alike(k, base_p, p, base_q, q, program, from + 1, end, next);
            },
            Err(_) => {},
        }
    }
}

/// Alike plans leave the same shots.
pub proof fn lemma_select_alike<A, K: ActiveKernels<A>>(
    k: &K,
    base_p: spec_fn(int, int) -> bool,
    p: PresampledExpressionPlan,
    base_q: spec_fn(int, int) -> bool,
    q: PresampledExpressionPlan,
    program: &FactoredInstructionProgram,
    expected: Seq<u8>,
    from: int,
    end: int,
    b: Block<A>,
)
    requires
        alike::<A>(base_p, p, base_q, q, program),
        0 <= from,
        end <= program.instructions@.len(),
    ensures
        select_run(k, base_p, p, program, expected, from, end, b) == select_run(
            k,
            base_q,
            q,
            program,
            expected,
            from,
            end,
            b,
        ),
    decreases end - from,
{
    if from < end && b.shots.len() > 0 {
        assert(alike_at::<A>(base_p, p, base_q, q, from));
        lemma_step_alike(k, base_p, p, base_q, q, program, from, b);
        lemma_signs_alike::<A>(base_p, p, base_q, q, from);
        assert(select_step(k, base_p, p, program, expected, from, b) == select_step(
            k,
            base_q,
            q,
            program,
            expected,
            from,
            b,
        ));
        match select_step(k, base_p, p, program, expected, from, b) {
            Ok(next) => {
                lemma_select_alike(k, base_p, p, base_q, q, program, expected, from + 1, end, next);
            },
            Err(_) => {},
        }
    }
}

/// Alike plans sample the same shots.
proof fn lemma_sampled_alike<A, K: ActiveKernels<A>>(
    k: &K,
    base_p: spec_fn(int, int) -> bool,
    p: PresampledExpressionPlan,
    base_q: spec_fn(int, int) -> bool,
    q: PresampledExpressionPlan,
    program: &FactoredInstructionProgram,
    batches: int,
    rng: u64,
    offset: int,
    shots: int,
)
    requires
        alike::<A>(base_p, p, base_q, q, program),
    ensures
        sampled_shots(k, base_p, p, program, batches, rng, offset, shots) == sampled_shots(
            k,
            base_q,
            q,
            program,
            batches,
            rng,
            offset,
            shots,
        ),
    decreases shots - offset,
{
    if offset < shots && batches > 0 {
        let n = if batches < shots - offset {
            batches
        } else {
            shots - offset
        };
        let start = fresh(
            program,
            false,
            false,
            rng,
            n,
            offset,
            zero_of::<A, K>(k),
            one_of::<A, K>(k),
        );
        let end = program.instructions@.len() as int;
        lemma_run_alike(k, base_p, p, base_q, q, program, 0, end, start);
        match run(k, base_p, p, program, 0, end, start) {
            Ok(b) => {
                lemma_sampled_alike(
                    k,
                    base_p,
                    p,
                    base_q,
                    q,
                    program,
                    batches,
                    b.rng,
                    offset + n,
                    shots,
                );
            },
            Err(_) => {},
        }
    }
}

/// Rows with the same records are the same words.
proof fn lemma_same_rows<A>(x: Seq<u64>, y: Seq<u64>, shot: Shot<A>, nrecords: int)
    requires
        0 <= nrecords,
        holds_records(x, shot, nrecords),
        holds_records(y, shot, nrecords),
    ensures
        x == y,
{
    assert forall|m: int| 0 <= m < x.len() implies x[m] == y[m] by {
        assert forall|j: int| 0 <= j < 64 implies #[trigger] word_bit(x[m], j) == word_bit(
            y[m],
            j,
        ) by {
            let q = 64 * m + j;
            assert(q / 64 == m && q % 64 == j);
            assert(row_bit(x, q) == row_bit(y, q)) by {
                if q < nrecords {
                    assert(row_bits(x, nrecords)[q] == row_bits(y, nrecords)[q]);
                }
            }
        }
        lemma_word_ext(x[m], y[m]);
    }
    assert(x =~= y);
}

/// Two equal calls of `sample_measurements_batch` give equal rows: as many words each
/// as the records need, with no bit set beyond them.
pub proof fn law_equal_calls_give_equal_rows<A, K: ActiveKernels<A>>(
    k: &K,
    program: &FactoredInstructionProgram,
    draws: ExogenousDraws,
    p: PresampledExpressionPlan,
    q: PresampledExpressionPlan,
    size: int,
    seed: u64,
    x: Seq<Vec<u64>>,
    y: Seq<Vec<u64>>,
)
    requires
        program.wf(),
        x.len() == y.len(),
        sampled_rows::<A, K>(k, program, draws, p, size, seed, x),
        sampled_rows::<A, K>(k, program, draws, q, size, seed, y),
    ensures
        forall|i: int|
            0 <= i < x.len() ==> {
                &&& (#[trigger] x[i])@ == y[i]@
                &&& x[i]@.len() == words_for_bits(program.nrecords as int)
                &&& forall|b: int| program.nrecords <= b ==> !#[trigger] row_bit(x[i]@, b)
            },
{
    let n = x.len() as int;
    lemma_plans_alike::<A>(program, draws, n, p, q);
    let bp = noise_table(p, program, draws, n);
    let bq = noise_table(q, program, draws, n);
    lemma_sampled_alike::<A, K>(k, bp, p, bq, q, program, size, seed, 0, n);
    let shots = sampled_shots::<A, K>(k, bp, p, program, size, seed, 0, n)->0;
    assert forall|i: int| 0 <= i < x.len() implies {
        &&& (#[trigger] x[i])@ == y[i]@
        &&& x[i]@.len() == words_for_bits(program.nrecords as int)
        &&& forall|b: int| program.nrecords <= b ==> !#[trigger] row_bit(x[i]@, b)
    } by {
        assert(holds_records(x[i]@, shots[i], program.nrecords as int));
        assert(holds_records(y[i]@, shots[i], program.nrecords as int));
        lemma_same_rows(x[i]@, y[i]@, shots[i], program.nrecords as int);
    }
}

/// Two equal calls of `sample_measurements_and_expectations_batch` give equal rows and
/// equal values.
pub proof fn law_equal_calls_give_equal_expectations<A, K: ActiveKernels<A>>(
    k: &K,
    program: &FactoredInstructionProgram,
    draws: ExogenousDraws,
    p: PresampledExpressionPlan,
    q: PresampledExpressionPlan,
    size: int,
    seed: u64,
    x: MeasurementExpectationSamples,
    y: MeasurementExpectationSamples,
)
    requires
        program.wf(),
        x.measurements@.len() == y.measurements@.len(),
        sampled_both::<A, K>(k, program, draws, p, size, seed, x),
        sampled_both::<A, K>(k, program, draws, q, size, seed, y),
    ensures
        x.expectations@.len() == y.expectations@.len(),
        forall|i: int|
            0 <= i < x.measurements@.len() ==> (#[trigger] x.measurements@[i])@
                == y.measurements@[i]@,
        forall|i: int|
            0 <= i < x.expectations@.len() ==> (#[trigger] x.expectations@[i])@
                == y.expectations@[i]@,
{
    let n = x.measurements@.len() as int;
    lemma_plans_alike::<A>(program, draws, n, p, q);
    let bp = noise_table(p, program, draws, n);
    let bq = noise_table(q, program, draws, n);
    lemma_sampled_alike::<A, K>(k, bp, p, bq, q, program, size, seed, 0, n);
    let shots = sampled_shots::<A, K>(k, bp, p, program, size, seed, 0, n)->0;
    assert forall|i: int| 0 <= i < n implies (#[trigger] x.measurements@[i])@
        == y.measurements@[i]@ by {
        assert(holds_records(x.measurements@[i]@, shots[i], program.nrecords as int));
        assert(holds_records(y.measurements@[i]@, shots[i], program.nrecords as int));
        lemma_same_rows(
            x.measurements@[i]@,
            y.measurements@[i]@,
            shots[i],
            program.nrecords as int,
        );
    }
    assert forall|i: int| 0 <= i < n implies (#[trigger] x.expectations@[i])@
        == y.expectations@[i]@ by {
        assert(x.expectations@[i]@ == shots[i].exps);
        assert(y.expectations@[i]@ == shots[i].exps);
    }
}

} // verus!
