//! Whether the noise drawn for a sampling call fits the prepared program, decided.
use vstd::prelude::*;
use crate::bits::{symbol_word_count, words_for_bits};
use crate::chunks::{noise_fits, ChunkNoise};
use crate::exogenous::{
    categorical_draw_wf, drawable, draws_wf, enough_coins, low_draw_wf, rare_draw_wf,
    skip_positions, skips_from, BiasedCoins, BiasedDraw, ExogenousDraws, RareDraw,
};
use crate::program::{
    BernoulliSampleGroup, FactoredInstructionProgram, RareCategoricalSampleGroup,
};
use crate::sampler::SamplerPlan;
use crate::schedule::{all_noise_fits, chunk_count, chunk_len};
use crate::symbolic::SymbolicCategoricalDistribution;

verus! {

/// The product of two sizes, without overflow.
fn wide_product(a: usize, b: usize) -> (r: u128)
    ensures
        r == a * b,
{
    assert(a * b <= u128::MAX) by (nonlinear_arith)
        requires
            a <= 0xffff_ffff_ffff_ffff,
            b <= 0xffff_ffff_ffff_ffff,
    ;
    assert(a as u128 * b as u128 == a * b) by (nonlinear_arith);
    (a as u128) * (b as u128)
}

/// The conditions are symbols of the program.
fn conditions_drawable(list: &Vec<i32>, nsymbols: usize) -> (r: bool)
    ensures
        r == drawable(list@, nsymbols as int),
{
    let mut k: usize = 0;
    while k < list.len()
        invariant
            k <= list@.len(),
            forall|q: int| 0 <= q < k ==> 0 < #[trigger] list@[q] <= nsymbols,
        decreases list@.len() - k,
    {
        if list[k] <= 0 || list[k] as u32 as u64 > nsymbols as u64 {
            assert(!(0 < list@[k as int] <= nsymbols));
            return false;
        }
        k += 1;
    }
    true
}

/// A row of one bit per condition has this many words.
fn row_holds(conditions: usize, words: usize) -> (r: bool)
    ensures
        r == (conditions <= 64 * words),
{
    conditions as u128 <= 64 * (words as u128)
}

fn categorical_fits(
    d: &SymbolicCategoricalDistribution,
    rows: &Vec<usize>,
    nsymbols: usize,
    shots: usize,
) -> (r: bool)
    ensures
        r == categorical_draw_wf(*d, rows@, nsymbols as int, shots as int),
{
    if !conditions_drawable(&d.conditions, nsymbols) || rows.len() != shots {
        return false;
    }
    let mut k: usize = 0;
    while k < rows.len()
        invariant
            k <= rows@.len(),
            forall|q: int|
                0 <= q < k ==> #[trigger] rows@[q] < d.assignments@.len() && d.conditions@.len() <= 64
                    * d.assignments@[rows@[q] as int]@.len(),
        decreases rows@.len() - k,
    {
        let row: usize = rows[k];
        if row >= d.assignments.len() || !row_holds(d.conditions.len(), d.assignments[row].len()) {
            assert(rows@[k as int] == row);
            return false;
        }
        k += 1;
    }
    true
}

/// Every assignment row holds a bit for each condition of the list.
fn rows_hold(assignments: &Vec<Vec<u64>>, conditions: usize) -> (r: bool)
    ensures
        r == forall|k: int|
            0 <= k < assignments@.len() ==> conditions <= 64 * (#[trigger] assignments@[k])@.len(),
{
    let mut k: usize = 0;
    while k < assignments.len()
        invariant
            k <= assignments@.len(),
            forall|q: int|
                0 <= q < k ==> conditions <= 64 * (#[trigger] assignments@[q])@.len(),
        decreases assignments@.len() - k,
    {
        if !row_holds(conditions, assignments[k].len()) {
            assert(conditions > 64 * assignments@[k as int]@.len());
            return false;
        }
        k += 1;
    }
    true
}

fn rare_fits(
    g: &RareCategoricalSampleGroup,
    draw: &RareDraw,
    nsymbols: usize,
    shots: usize,
) -> (r: bool)
    ensures
        r == rare_draw_wf(*g, *draw, nsymbols as int, shots as int),
{
    let sets: usize = g.conditions.len();
    let total: u128 = wide_product(shots, sets);
    if total > 0xffff_ffff_ffff_ffff {
        return false;
    }
    let mut k: usize = 0;
    while k < sets
        invariant
            k <= sets,
            sets == g.conditions@.len(),
            forall|q: int|
                0 <= q < k ==> drawable((#[trigger] g.conditions@[q])@, nsymbols as int),
            forall|q: int, m: int|
                0 <= q < g.assignments@.len() && 0 <= m < k ==> (#[trigger] g.conditions@[m])@.len()
                    <= 64 * (#[trigger] g.assignments@[q])@.len(),
        decreases sets - k,
    {
        if !conditions_drawable(&g.conditions[k], nsymbols) {
            assert(!drawable(g.conditions@[k as int]@, nsymbols as int));
            return false;
        }
        if !rows_hold(&g.assignments, g.conditions[k].len()) {
            proof {
                let q = choose|q: int|
                    0 <= q < g.assignments@.len() && g.conditions@[k as int]@.len() > 64 * (
                    #[trigger] g.assignments@[q])@.len();
                assert(g.conditions@[k as int]@.len() > 64 * g.assignments@[q]@.len());
            }
            return false;
        }
        k += 1;
    }
    let hits: usize = skip_positions(&draw.gaps, total as u64).len();
    if hits > draw.events.len() {
        return false;
    }
    let mut e: usize = 0;
    while e < hits
        invariant
            e <= hits <= draw.events@.len(),
            sets == g.conditions@.len(),
            hits == skips_from(draw.gaps@, shots * sets, 0).len(),
            forall|q: int|
                0 <= q < e ==> #[trigger] draw.events@[q] < g.event_rows@.len()
                    && g.event_rows@[draw.events@[q] as int] < g.assignments@.len(),
        decreases hits - e,
    {
        let event: usize = draw.events[e];
        if event >= g.event_rows.len() || g.event_rows[event] >= g.assignments.len() {
            assert(draw.events@[e as int] == event);
            return false;
        }
        e += 1;
    }
    true
}

fn coins_fit(draw: &BiasedDraw, words: usize) -> (r: bool)
    ensures
        r == enough_coins(*draw, words as int),
{
    match &draw.coins {
        BiasedCoins::Fair(list) => list.len() >= words,
        BiasedCoins::Binary { top_bits: _, coins, gaps: _ } => coins.len() as u128 >= 8 * (
        words as u128),
        _ => true,
    }
}

fn low_fits(g: &BernoulliSampleGroup, nsymbols: usize, shots: usize) -> (r: bool)
    ensures
        r == low_draw_wf(*g, nsymbols as int, shots as int),
{
    wide_product(shots, g.conditions.len()) <= 0xffff_ffff_ffff_ffff && conditions_drawable(
        &g.conditions,
        nsymbols,
    )
}

/// The draws fit the program and a chunk of `shots` shots.
pub fn draws_fit(program: &FactoredInstructionProgram, draws: &ExogenousDraws, shots: usize) -> (r: bool)
    ensures
        r == draws_wf(program, *draws, shots as int),
{
    let nsymbols: usize = program.nsymbols;
    if draws.categorical.len() != program.sampled_categorical_distributions.len()
        || draws.rare.len() != program.sampled_rare_categorical_groups.len()
        || draws.bernoulli.len() != program.sampled_bernoulli_conditions.len() || draws.low.len()
        != program.sampled_low_probability_bernoulli_groups.len() || !conditions_drawable(
        &program.sampled_bernoulli_conditions,
        nsymbols,
    ) {
        return false;
    }
    let mut j: usize = 0;
    while j < draws.categorical.len()
        invariant
            j <= draws.categorical@.len(),
            nsymbols == program.nsymbols,
            draws.categorical@.len() == program.sampled_categorical_distributions@.len(),
            forall|q: int|
                0 <= q < j ==> categorical_draw_wf(
                    program.sampled_categorical_distributions@[q],
                    (#[trigger] draws.categorical@[q])@,
                    nsymbols as int,
                    shots as int,
                ),
        decreases draws.categorical@.len() - j,
    {
        if !categorical_fits(
            &program.sampled_categorical_distributions[j],
            &draws.categorical[j],
            nsymbols,
            shots,
        ) {
            assert(!categorical_draw_wf(
                program.sampled_categorical_distributions@[j as int],
                draws.categorical@[j as int]@,
                nsymbols as int,
                shots as int,
            ));
            return false;
        }
        j += 1;
    }
    let mut g: usize = 0;
    while g < draws.rare.len()
        invariant
            g <= draws.rare@.len(),
            nsymbols == program.nsymbols,
            draws.rare@.len() == program.sampled_rare_categorical_groups@.len(),
            forall|q: int|
                0 <= q < g ==> rare_draw_wf(
                    program.sampled_rare_categorical_groups@[q],
                    #[trigger] draws.rare@[q],
                    nsymbols as int,
                    shots as int,
                ),
        decreases draws.rare@.len() - g,
    {
        if !rare_fits(
            &program.sampled_rare_categorical_groups[g],
            &draws.rare[g],
            nsymbols,
            shots,
        ) {
            assert(!rare_draw_wf(
                program.sampled_rare_categorical_groups@[g as int],
                draws.rare@[g as int],
                nsymbols as int,
                shots as int,
            ));
            return false;
        }
        g += 1;
    }
    let words: usize = symbol_word_count(shots);
    let mut b: usize = 0;
    while b < draws.bernoulli.len()
        invariant
            b <= draws.bernoulli@.len(),
            nsymbols == program.nsymbols,
            words == words_for_bits(shots as int),
            forall|q: int|
                0 <= q < b ==> enough_coins(#[trigger] draws.bernoulli@[q], words as int),
        decreases draws.bernoulli@.len() - b,
    {
        if !coins_fit(&draws.bernoulli[b], words) {
            assert(!enough_coins(draws.bernoulli@[b as int], words as int));
            return false;
        }
        b += 1;
    }
    let mut l: usize = 0;
    while l < draws.low.len()
        invariant
            l <= draws.low@.len(),
            nsymbols == program.nsymbols,
            draws.low@.len() == program.sampled_low_probability_bernoulli_groups@.len(),
            forall|q: int|
                0 <= q < l ==> low_draw_wf(
                    #[trigger] program.sampled_low_probability_bernoulli_groups@[q],
                    nsymbols as int,
                    shots as int,
                ),
        decreases draws.low@.len() - l,
    {
        if !low_fits(&program.sampled_low_probability_bernoulli_groups[l], nsymbols, shots) {
            assert(!low_draw_wf(
                program.sampled_low_probability_bernoulli_groups@[l as int],
                nsymbols as int,
                shots as int,
            ));
            return false;
        }
        l += 1;
    }
    true
}

/// The noise of a call of `shots` shots fits the sampler: enough chunks, and draws
/// and seeds for each.
pub fn noise_covers(plan: &SamplerPlan, shots: u64, noise: &Vec<ChunkNoise>) -> (r: bool)
    ensures
        r == all_noise_fits(plan, shots as int, noise@),
{
    let chunk: usize = plan.options.sample_chunk_shots;
    let n: usize = noise.len();
    if wide_product(n, chunk) < shots as u128 {
        return false;
    }
    if n > 0 && wide_product(n - 1, chunk) >= shots as u128 {
        return false;
    }
    let mut c: usize = 0;
    while c < n
        invariant
            c <= n,
            n == noise@.len(),
            chunk == plan.options.sample_chunk_shots,
            chunk_count(shots as int, chunk as int, n as int),
            forall|q: int|
                0 <= q < c ==> noise_fits(
                    plan,
                    chunk_len(shots as int, chunk as int, q),
                    #[trigger] noise@[q],
                ),
        decreases n - c,
    {
        proof {
            assert(c * chunk <= (n - 1) * chunk) by (nonlinear_arith)
                requires
                    c <= n - 1,
                    chunk >= 0,
            ;
        }
        let left: u128 = shots as u128 - wide_product(c, chunk);
        let length: usize = if (chunk as u128) < left {
            chunk
        } else {
            left as usize
        };
        assert(length == chunk_len(shots as int, chunk as int, c as int));
        let seeds: u128 = wide_product(noise[c].branch_seeds.len(), plan.options.batch_size);
        if !draws_fit(&plan.program, &noise[c].draws, length) || seeds < length as u128 {
            assert(!noise_fits(
                plan,
                chunk_len(shots as int, chunk as int, c as int),
                noise@[c as int],
            ));
            return false;
        }
        c += 1;
    }
    true
}

} // verus!
