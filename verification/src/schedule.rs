//! Spreading chunks over workers. Worker `w` of `t` takes the chunks `w`, `w + t`,
//! `w + 2 t` and so on. Since a chunk gives the same wherever it runs, the counts do
//! not depend on the number of workers.
use vstd::prelude::*;
use crate::chunks::{chunk_refused, left_of, noise_fits, sample_chunk, ChunkNoise};
use crate::errors::Result;
use crate::executor::filled_list;
use crate::kernels::{lawful, ActiveKernels};
use crate::model::Shot;
use crate::outputs::{
    all_exps, lemma_exps_concat, lemma_ones_concat, lemma_rows_bytes_concat, output_columns,
    row_width, rows_bytes, tallied, OutputOptions, SampleCounts, SampleTally,
};
use crate::sampler::{
    active_worker_count, checked_output_len, workers_for, BatchWorker, Sampler,
    SamplerPlan,
};

verus! {

/// Rows, counts and layout of one sampling call.
#[derive(Clone, Debug)]
pub struct SampleResult {
    /// The rows and counts of every shot.
    pub tally: SampleTally,
    /// Workers that received a chunk.
    pub active_threads: usize,
    /// Rows of each output.
    pub record_rows: usize,
    /// Whether rows hold eight bits to a byte.
    pub bit_packed: bool,
}

// ---------------------------------------------------------------------------
// Sums over chunks
// ---------------------------------------------------------------------------
/// The sum over the first `n` chunks.
pub open spec fn sum_below(f: spec_fn(int) -> int, n: int) -> int
    decreases n,
{
    if n <= 0 {
        0
    } else {
        sum_below(f, n - 1) + f(n - 1)
    }
}

/// The sum over the chunks `c`, `c + step` and so on below `n`.
pub open spec fn strided_sum(f: spec_fn(int) -> int, c: int, step: int, n: int) -> int
    decreases
            if c < n {
                n - c
            } else {
                0
            },
{
    if c >= n || step <= 0 {
        0
    } else {
        f(c) + strided_sum(f, c + step, step, n)
    }
}

/// The sum over the chunks of the first `w` workers of `t`.
pub open spec fn workers_sum(f: spec_fn(int) -> int, w: int, t: int, n: int) -> int
    decreases w,
{
    if w <= 0 {
        0
    } else {
        workers_sum(f, w - 1, t, n) + strided_sum(f, w - 1, t, n)
    }
}

/// One chunk more adds to the worker whose turn it is.
proof fn lemma_strided_step(f: spec_fn(int) -> int, c: int, t: int, n: int)
    requires
        0 < t,
        0 <= n,
    ensures
        strided_sum(f, c, t, n + 1) == strided_sum(f, c, t, n) + if c <= n && (n - c) % t == 0 {
            f(n)
        } else {
            0
        },
    decreases
            if c < n {
                n - c
            } else {
                0
            },
{
    if c < n {
        lemma_strided_step(f, c + t, t, n);
        assert((n - c) % t == (n - (c + t)) % t) by {
            vstd::arithmetic::div_mod::lemma_mod_sub_multiples_vanish(n - c, t);
        }
        if n - c < t {
            assert((n - c) % t != 0) by {
                vstd::arithmetic::div_mod::lemma_small_mod((n - c) as nat, t as nat);
            }
        }
    } else if c == n {
        assert(strided_sum(f, c + t, t, n + 1) == 0);
        assert(0int % t == 0) by {
            vstd::arithmetic::div_mod::lemma_small_mod(0, t as nat);
        }
    }
}

proof fn lemma_turn(v: int, t: int, n: int)
    requires
        0 <= v < t,
        0 <= n,
    ensures
        (v <= n && (n - v) % t == 0) == (v == n % t),
{
    let q = n / t;
    let r = n % t;
    vstd::arithmetic::div_mod::lemma_fundamental_div_mod(n, t);
    vstd::arithmetic::div_mod::lemma_mod_bound(n, t);
    if v == r {
        assert(n - v == t * q);
        assert(0 <= q) by {
            vstd::arithmetic::div_mod::lemma_div_pos_is_pos(n, t);
        }
        assert(0 <= t * q) by (nonlinear_arith)
            requires
                0 <= t,
                0 <= q,
        ;
        vstd::arithmetic::div_mod::lemma_mod_multiples_basic(q, t);
        assert(t * q == q * t) by (nonlinear_arith);
    }
    if v <= n && (n - v) % t == 0 {
        let p = (n - v) / t;
        vstd::arithmetic::div_mod::lemma_fundamental_div_mod(n - v, t);
        assert(n == t * p + v);
        vstd::arithmetic::div_mod::lemma_fundamental_div_mod_converse(n, t, p, v);
    }
}

proof fn lemma_workers_step(f: spec_fn(int) -> int, w: int, t: int, n: int)
    requires
        0 <= w <= t,
        0 < t,
        0 <= n,
    ensures
        workers_sum(f, w, t, n + 1) == workers_sum(f, w, t, n) + if n % t < w {
            f(n)
        } else {
            0
        },
    decreases w,
{
    vstd::arithmetic::div_mod::lemma_mod_bound(n, t);
    if w > 0 {
        lemma_workers_step(f, w - 1, t, n);
        lemma_strided_step(f, w - 1, t, n);
        lemma_turn(w - 1, t, n);
    }
}

/// The workers together take every chunk once: any sum over the chunks is the same
/// for every number of workers.
pub proof fn law_workers_take_every_chunk_once(f: spec_fn(int) -> int, t: int, n: int)
    requires
        0 < t,
        0 <= n,
    ensures
        workers_sum(f, t, t, n) == sum_below(f, n),
    decreases n,
{
    if n == 0 {
        lemma_workers_none(f, t, t);
    } else {
        law_workers_take_every_chunk_once(f, t, n - 1);
        lemma_workers_step(f, t, t, n - 1);
        vstd::arithmetic::div_mod::lemma_mod_bound(n - 1, t);
    }
}

proof fn lemma_workers_none(f: spec_fn(int) -> int, w: int, t: int)
    requires
        0 <= w,
    ensures
        workers_sum(f, w, t, 0) == 0,
    decreases w,
{
    if w > 0 {
        lemma_workers_none(f, w - 1, t);
    }
}

// ---------------------------------------------------------------------------
// Chunks of a call
// ---------------------------------------------------------------------------
/// Shots of chunk `c`.
pub open spec fn chunk_len(shots: int, chunk: int, c: int) -> int {
    if chunk < shots - c * chunk {
        chunk
    } else {
        shots - c * chunk
    }
}

/// The chunks cover the shots.
pub open spec fn chunk_count(shots: int, chunk: int, n: int) -> bool {
    n * chunk >= shots && (n == 0 || (n - 1) * chunk < shots)
}

pub open spec fn chunk_lens(shots: int, chunk: int) -> spec_fn(int) -> int {
    |c: int| chunk_len(shots, chunk, c)
}

proof fn lemma_chunk_sum(shots: int, chunk: int, n: int, m: int)
    requires
        0 <= shots,
        0 < chunk,
        chunk_count(shots, chunk, n),
        0 <= m <= n,
    ensures
        sum_below(chunk_lens(shots, chunk), m) == if m * chunk < shots {
            m * chunk
        } else {
            shots
        },
    decreases m,
{
    if m > 0 {
        lemma_chunk_sum(shots, chunk, n, m - 1);
        assert((m - 1) * chunk <= (n - 1) * chunk) by (nonlinear_arith)
            requires
                m <= n,
                0 < chunk,
        ;
        assert(m * chunk == (m - 1) * chunk + chunk) by (nonlinear_arith);
    } else {
        assert(0 * chunk == 0);
    }
}

/// The chunks of a call add up to its shots.
pub proof fn law_chunks_cover_the_shots(shots: int, chunk: int, n: int)
    requires
        0 <= shots,
        0 < chunk,
        0 <= n,
        chunk_count(shots, chunk, n),
    ensures
        sum_below(chunk_lens(shots, chunk), n) == shots,
{
    lemma_chunk_sum(shots, chunk, n, n);
}

/// Every chunk has shots, and no more than the chunk size.
pub proof fn lemma_chunk_len(shots: int, chunk: int, n: int, c: int)
    requires
        0 <= shots,
        0 < chunk,
        chunk_count(shots, chunk, n),
        0 <= c < n,
    ensures
        0 < chunk_len(shots, chunk, c) <= chunk,
        0 <= c * chunk < shots,
{
    assert(c * chunk <= (n - 1) * chunk) by (nonlinear_arith)
        requires
            c <= n - 1,
            0 < chunk,
    ;
    assert(0 <= c * chunk) by (nonlinear_arith)
        requires
            0 <= c,
            0 < chunk,
    ;
}

/// The shots that are left of chunk `c` of a call.
pub open spec fn left_at<A, K: ActiveKernels<A>>(
    k: &K,
    plan: &SamplerPlan,
    keep: bool,
    shots: int,
    noise: Seq<ChunkNoise>,
    c: int,
) -> Option<Seq<Shot<A>>> {
    left_of(
        k,
        plan,
        keep,
        chunk_len(shots, plan.options.sample_chunk_shots as int, c),
        noise[c],
    )
}

/// The shots that are left of the chunks `c`, `c + step` and so on.
pub open spec fn worker_left<A, K: ActiveKernels<A>>(
    k: &K,
    plan: &SamplerPlan,
    keep: bool,
    shots: int,
    noise: Seq<ChunkNoise>,
    c: int,
    step: int,
) -> Option<Seq<Shot<A>>>
    decreases
            if c < noise.len() {
                noise.len() - c
            } else {
                0
            },
{
    if c >= noise.len() || step <= 0 {
        Some(Seq::empty())
    } else {
        match left_at::<A, K>(k, plan, keep, shots, noise, c) {
            None => None,
            Some(first) => match worker_left::<A, K>(k, plan, keep, shots, noise, c + step, step) {
                None => None,
                Some(rest) => Some(first + rest),
            },
        }
    }
}

/// The shots that are left of the chunks of the first `w` workers of `t`, worker by
/// worker.
pub open spec fn workers_left<A, K: ActiveKernels<A>>(
    k: &K,
    plan: &SamplerPlan,
    keep: bool,
    shots: int,
    noise: Seq<ChunkNoise>,
    w: int,
    t: int,
) -> Option<Seq<Shot<A>>>
    decreases w,
{
    if w <= 0 {
        Some(Seq::empty())
    } else {
        match workers_left::<A, K>(k, plan, keep, shots, noise, w - 1, t) {
            None => None,
            Some(before) => match worker_left::<A, K>(k, plan, keep, shots, noise, w - 1, t) {
                None => None,
                Some(own) => Some(before + own),
            },
        }
    }
}

/// How many shots are left of each chunk.
pub open spec fn left_lens<A, K: ActiveKernels<A>>(
    k: &K,
    plan: &SamplerPlan,
    keep: bool,
    shots: int,
    noise: Seq<ChunkNoise>,
) -> spec_fn(int) -> int {
    |c: int| (left_at::<A, K>(k, plan, keep, shots, noise, c)->0).len() as int
}

/// How many shots that are left of each chunk have an observable set.
pub open spec fn left_ones<'a, A, K: ActiveKernels<A>>(
    k: &K,
    plan: &SamplerPlan,
    keep: bool,
    shots: int,
    noise: Seq<ChunkNoise>,
    o: &OutputOptions<'a>,
    i: int,
) -> spec_fn(int) -> int {
    |c: int|
        {
            let left = left_at::<A, K>(k, plan, keep, shots, noise, c)->0;
            o.ones(left, i, left.len() as int)
        }
}

proof fn lemma_worker_sums<'a, A, K: ActiveKernels<A>>(
    k: &K,
    plan: &SamplerPlan,
    keep: bool,
    shots: int,
    noise: Seq<ChunkNoise>,
    c: int,
    step: int,
    o: &OutputOptions<'a>,
    i: int,
)
    requires
        0 < step,
        worker_left::<A, K>(k, plan, keep, shots, noise, c, step) is Some,
    ensures
        (worker_left::<A, K>(k, plan, keep, shots, noise, c, step)->0).len() == strided_sum(
            left_lens::<A, K>(k, plan, keep, shots, noise),
            c,
            step,
            noise.len() as int,
        ),
        ({
            let left = worker_left::<A, K>(k, plan, keep, shots, noise, c, step)->0;
            o.ones(left, i, left.len() as int)
        }) == strided_sum(
            left_ones::<A, K>(k, plan, keep, shots, noise, o, i),
            c,
            step,
            noise.len() as int,
        ),
    decreases
            if c < noise.len() {
                noise.len() - c
            } else {
                0
            },
{
    if c < noise.len() {
        lemma_worker_sums::<A, K>(k, plan, keep, shots, noise, c + step, step, o, i);
        let first = left_at::<A, K>(k, plan, keep, shots, noise, c)->0;
        let rest = worker_left::<A, K>(k, plan, keep, shots, noise, c + step, step)->0;
        lemma_ones_concat(o, first, rest, i, rest.len() as int);
    }
}

proof fn lemma_workers_sums<'a, A, K: ActiveKernels<A>>(
    k: &K,
    plan: &SamplerPlan,
    keep: bool,
    shots: int,
    noise: Seq<ChunkNoise>,
    w: int,
    t: int,
    o: &OutputOptions<'a>,
    i: int,
)
    requires
        0 < t,
        0 <= w,
        workers_left::<A, K>(k, plan, keep, shots, noise, w, t) is Some,
    ensures
        (workers_left::<A, K>(k, plan, keep, shots, noise, w, t)->0).len() == workers_sum(
            left_lens::<A, K>(k, plan, keep, shots, noise),
            w,
            t,
            noise.len() as int,
        ),
        ({
            let left = workers_left::<A, K>(k, plan, keep, shots, noise, w, t)->0;
            o.ones(left, i, left.len() as int)
        }) == workers_sum(
            left_ones::<A, K>(k, plan, keep, shots, noise, o, i),
            w,
            t,
            noise.len() as int,
        ),
    decreases w,
{
    if w > 0 {
        lemma_workers_sums::<A, K>(k, plan, keep, shots, noise, w - 1, t, o, i);
        lemma_worker_sums::<A, K>(k, plan, keep, shots, noise, w - 1, t, o, i);
        let before = workers_left::<A, K>(k, plan, keep, shots, noise, w - 1, t)->0;
        let own = worker_left::<A, K>(k, plan, keep, shots, noise, w - 1, t)->0;
        lemma_ones_concat(o, before, own, i, own.len() as int);
    }
}

/// The number of workers changes neither how many shots are left nor how many of
/// them have an observable set.
pub proof fn law_counts_do_not_depend_on_workers<'a, A, K: ActiveKernels<A>>(
    k: &K,
    plan: &SamplerPlan,
    keep: bool,
    shots: int,
    noise: Seq<ChunkNoise>,
    t: int,
    o: &OutputOptions<'a>,
    i: int,
)
    requires
        0 < t,
        workers_left::<A, K>(k, plan, keep, shots, noise, t, t) is Some,
    ensures
        ({
            let left = workers_left::<A, K>(k, plan, keep, shots, noise, t, t)->0;
            &&& left.len() == sum_below(
                left_lens::<A, K>(k, plan, keep, shots, noise),
                noise.len() as int,
            )
            &&& o.ones(left, i, left.len() as int) == sum_below(
                left_ones::<A, K>(k, plan, keep, shots, noise, o, i),
                noise.len() as int,
            )
        }),
{
    lemma_workers_sums::<A, K>(k, plan, keep, shots, noise, t, t, o, i);
    law_workers_take_every_chunk_once(
        left_lens::<A, K>(k, plan, keep, shots, noise),
        t,
        noise.len() as int,
    );
    law_workers_take_every_chunk_once(
        left_ones::<A, K>(k, plan, keep, shots, noise, o, i),
        t,
        noise.len() as int,
    );
}

/// The number of a block among all blocks: the blocks of a chunk stand together.
pub fn block_index(chunk_index: u64, blocks_per_chunk: u64, local: u64) -> (r: u64)
    requires
        chunk_index * blocks_per_chunk + local <= u64::MAX,
    ensures
        r == chunk_index * blocks_per_chunk + local,
{
    assert(0 <= chunk_index * blocks_per_chunk) by (nonlinear_arith);
    chunk_index * blocks_per_chunk + local
}

/// Blocks of different chunks have different numbers.
pub proof fn law_block_numbers_are_distinct(c: int, d: int, per_chunk: int, a: int, b: int)
    requires
        0 <= a < per_chunk,
        0 <= b < per_chunk,
        c * per_chunk + a == d * per_chunk + b,
    ensures
        c == d,
        a == b,
{
    crate::planes::lemma_plane_unique(per_chunk, c, a, d, b);
}

// ---------------------------------------------------------------------------
// Tallies of whole lists
// ---------------------------------------------------------------------------
/// The tally is that of these shots.
pub open spec fn holds<'a, A>(o: &OutputOptions<'a>, t: SampleTally, shots: Seq<Shot<A>>) -> bool {
    &&& t.counts.accepted == shots.len()
    &&& t.counts.logical_errors == o.errors(shots)
    &&& t.observable_ones@.len() == o.observable_records@.len()
    &&& forall|i: int|
        0 <= i < o.observable_records@.len() ==> #[trigger] t.observable_ones@[i] == o.ones(
            shots,
            i,
            shots.len() as int,
        )
    &&& t.measurements@ == if o.keep_records {
        rows_bytes(o.measurement_rows(shots), o.bit_packed)
    } else {
        Seq::empty()
    }
    &&& t.detectors@ == if o.keep_records {
        rows_bytes(o.detector_rows(shots), o.bit_packed)
    } else {
        Seq::empty()
    }
    &&& t.observables@ == if o.keep_records {
        rows_bytes(o.observable_rows(shots), o.bit_packed)
    } else {
        Seq::empty()
    }
    &&& t.exp_vals@ == if o.keep_records {
        all_exps(shots)
    } else {
        Seq::empty()
    }
}

/// A tally of no shots.
pub fn blank_tally(observables: usize) -> (r: SampleTally)
    ensures
        r.counts == (SampleCounts { shots: 0, discarded: 0, accepted: 0, logical_errors: 0 }),
        r.measurements@.len() == 0,
        r.detectors@.len() == 0,
        r.observables@.len() == 0,
        r.exp_vals@.len() == 0,
        r.observable_ones@.len() == observables,
        forall|i: int| 0 <= i < observables ==> #[trigger] r.observable_ones@[i] == 0,
        r.sound(),
{
    SampleTally {
        counts: SampleCounts { shots: 0, discarded: 0, accepted: 0, logical_errors: 0 },
        measurements: Vec::new(),
        detectors: Vec::new(),
        observables: Vec::new(),
        observable_ones: filled_list(observables, 0u64),
        exp_vals: Vec::new(),
    }
}

proof fn lemma_blank_holds<'a, A>(o: &OutputOptions<'a>, t: SampleTally)
    requires
        t.counts.accepted == 0,
        t.counts.logical_errors == 0,
        t.measurements@.len() == 0,
        t.detectors@.len() == 0,
        t.observables@.len() == 0,
        t.exp_vals@.len() == 0,
        t.observable_ones@.len() == o.observable_records@.len(),
        forall|i: int| 0 <= i < t.observable_ones@.len() ==> #[trigger] t.observable_ones@[i] == 0,
    ensures
        holds(o, t, Seq::<Shot<A>>::empty()),
{
    let none = Seq::<Shot<A>>::empty();
    assert(o.measurement_rows(none) =~= Seq::<Seq<bool>>::empty());
    assert(o.detector_rows(none) =~= Seq::<Seq<bool>>::empty());
    assert(o.observable_rows(none) =~= Seq::<Seq<bool>>::empty());
    assert(t.measurements@ =~= Seq::<u8>::empty());
    assert(t.detectors@ =~= Seq::<u8>::empty());
    assert(t.observables@ =~= Seq::<u8>::empty());
    assert(t.exp_vals@ =~= Seq::<u64>::empty());
}

/// Adding shots to a tally of shots.
proof fn lemma_holds_more<'a, A>(
    o: &OutputOptions<'a>,
    before: SampleTally,
    after: SampleTally,
    a: Seq<Shot<A>>,
    b: Seq<Shot<A>>,
)
    requires
        holds(o, before, a),
        tallied(o, before, after, b),
    ensures
        holds(o, after, a + b),
{
    assert forall|i: int| 0 <= i < o.observable_records@.len() implies (
    #[trigger] after.observable_ones@[i]) == o.ones(a + b, i, (a + b).len() as int) by {
        lemma_ones_concat(o, a, b, i, b.len() as int);
        assert(before.observable_ones@[i] == o.ones(a, i, a.len() as int));
    }
    if o.selected_observable < o.observable_records@.len() {
        lemma_ones_concat(o, a, b, o.selected_observable as int, b.len() as int);
    }
    if o.keep_records {
        lemma_rows_bytes_concat(o.measurement_rows(a), o.measurement_rows(b), o.bit_packed);
        lemma_rows_bytes_concat(o.detector_rows(a), o.detector_rows(b), o.bit_packed);
        lemma_rows_bytes_concat(o.observable_rows(a), o.observable_rows(b), o.bit_packed);
        lemma_exps_concat(a, b);
        assert(o.measurement_rows(a + b) =~= o.measurement_rows(a) + o.measurement_rows(b));
        assert(o.detector_rows(a + b) =~= o.detector_rows(a) + o.detector_rows(b));
        assert(o.observable_rows(a + b) =~= o.observable_rows(a) + o.observable_rows(b));
    }
}

/// Two tallies joined.
pub open spec fn joined(a: SampleTally, b: SampleTally, r: SampleTally) -> bool {
    &&& r.counts.shots == a.counts.shots + b.counts.shots
    &&& r.counts.discarded == a.counts.discarded + b.counts.discarded
    &&& r.counts.accepted == a.counts.accepted + b.counts.accepted
    &&& r.counts.logical_errors == a.counts.logical_errors + b.counts.logical_errors
    &&& r.observable_ones@.len() == a.observable_ones@.len()
    &&& forall|i: int|
        0 <= i < a.observable_ones@.len() ==> #[trigger] r.observable_ones@[i] == a.observable_ones@[i]
            + b.observable_ones@[i]
    &&& r.measurements@ == a.measurements@ + b.measurements@
    &&& r.detectors@ == a.detectors@ + b.detectors@
    &&& r.observables@ == a.observables@ + b.observables@
    &&& r.exp_vals@ == a.exp_vals@ + b.exp_vals@
}

/// Adds the rows and counts of a worker, and empties its rows.
pub fn merge_tally(total: &mut SampleTally, tally: &mut SampleTally)
    requires
        old(total).sound(),
        old(tally).sound(),
        old(total).observable_ones@.len() == old(tally).observable_ones@.len(),
        old(total).counts.shots + old(tally).counts.shots <= u64::MAX,
    ensures
        joined(*old(total), *old(tally), *final(total)),
        final(total).sound(),
        final(tally).counts == old(tally).counts,
        final(tally).observable_ones == old(tally).observable_ones,
        final(tally).measurements@.len() == 0,
        final(tally).detectors@.len() == 0,
        final(tally).observables@.len() == 0,
        final(tally).exp_vals@.len() == 0,
{
    let ghost before = *total;
    let ghost other = *tally;
    total.counts = SampleCounts {
        shots: total.counts.shots + tally.counts.shots,
        discarded: total.counts.discarded + tally.counts.discarded,
        accepted: total.counts.accepted + tally.counts.accepted,
        logical_errors: total.counts.logical_errors + tally.counts.logical_errors,
    };
    let count: usize = total.observable_ones.len();
    let mut i: usize = 0;
    while i < count
        invariant
            i <= count,
            before.sound(),
            other.sound(),
            before.counts.accepted + other.counts.accepted <= u64::MAX,
            *total == (SampleTally {
                counts: total.counts,
                observable_ones: total.observable_ones,
                ..before
            }),
            *tally == other,
            total.observable_ones@.len() == count,
            before.observable_ones@.len() == count,
            other.observable_ones@.len() == count,
            total.counts.accepted == before.counts.accepted + other.counts.accepted,
            total.counts.shots == before.counts.shots + other.counts.shots,
            total.counts.discarded == before.counts.discarded + other.counts.discarded,
            total.counts.logical_errors == before.counts.logical_errors
                + other.counts.logical_errors,
            forall|j: int|
                0 <= j < i ==> #[trigger] total.observable_ones@[j] == before.observable_ones@[j]
                    + other.observable_ones@[j],
            forall|j: int|
                i <= j < count ==> #[trigger] total.observable_ones@[j] == before.observable_ones@[j],
        decreases count - i,
    {
        assert(before.observable_ones@[i as int] <= before.counts.accepted);
        assert(other.observable_ones@[i as int] <= other.counts.accepted);
        let sum: u64 = total.observable_ones[i] + tally.observable_ones[i];
        total.observable_ones.set(i, sum);
        i += 1;
    }
    total.measurements.append(&mut tally.measurements);
    total.detectors.append(&mut tally.detectors);
    total.observables.append(&mut tally.observables);
    total.exp_vals.append(&mut tally.exp_vals);
    proof {
        assert(total.measurements@ =~= before.measurements@ + other.measurements@);
        assert(total.detectors@ =~= before.detectors@ + other.detectors@);
        assert(total.observables@ =~= before.observables@ + other.observables@);
        assert(total.exp_vals@ =~= before.exp_vals@ + other.exp_vals@);
        assert forall|j: int| 0 <= j < total.observable_ones@.len() implies (
        #[trigger] total.observable_ones@[j]) <= total.counts.accepted by {
            assert(before.observable_ones@[j] <= before.counts.accepted);
            assert(other.observable_ones@[j] <= other.counts.accepted);
        }
    }
}

/// Joining tallies of shots is a tally of all of them.
proof fn lemma_joined_holds<'a, A>(
    o: &OutputOptions<'a>,
    x: SampleTally,
    y: SampleTally,
    r: SampleTally,
    a: Seq<Shot<A>>,
    b: Seq<Shot<A>>,
)
    requires
        holds(o, x, a),
        holds(o, y, b),
        joined(x, y, r),
    ensures
        holds(o, r, a + b),
{
    assert(tallied(o, x, r, b)) by {
        assert forall|i: int| 0 <= i < o.observable_records@.len() implies (
        #[trigger] r.observable_ones@[i]) == x.observable_ones@[i] + o.ones(b, i, b.len() as int) by {
            assert(y.observable_ones@[i] == o.ones(b, i, b.len() as int));
        }
        if !o.keep_records {
            assert(r.measurements@ =~= Seq::<u8>::empty());
            assert(r.detectors@ =~= Seq::<u8>::empty());
            assert(r.observables@ =~= Seq::<u8>::empty());
            assert(r.exp_vals@ =~= Seq::<u64>::empty());
        }
    }
    lemma_holds_more(o, x, r, a, b);
}

// ---------------------------------------------------------------------------
// Workers
// ---------------------------------------------------------------------------
proof fn lemma_strided_bound(f: spec_fn(int) -> int, c: int, step: int, n: int)
    requires
        0 < step,
        0 <= c,
        forall|d: int| 0 <= d < n ==> 0 <= #[trigger] f(d),
    ensures
        0 <= strided_sum(f, c, step, n),
    decreases
            if c < n {
                n - c
            } else {
                0
            },
{
    if c < n {
        lemma_strided_bound(f, c + step, step, n);
        assert(0 <= f(c));
    }
}

proof fn lemma_workers_bound(f: spec_fn(int) -> int, v: int, w: int, t: int, n: int)
    requires
        0 < t,
        0 <= v < w,
        forall|d: int| 0 <= d < n ==> 0 <= #[trigger] f(d),
    ensures
        strided_sum(f, v, t, n) <= workers_sum(f, w, t, n),
        0 <= workers_sum(f, w, t, n),
    decreases w,
{
    lemma_strided_bound(f, w - 1, t, n);
    lemma_workers_nonneg(f, w - 1, t, n);
    if v < w - 1 {
        lemma_workers_bound(f, v, w - 1, t, n);
    }
}

proof fn lemma_workers_nonneg(f: spec_fn(int) -> int, w: int, t: int, n: int)
    requires
        0 < t,
        0 <= w,
        forall|d: int| 0 <= d < n ==> 0 <= #[trigger] f(d),
    ensures
        0 <= workers_sum(f, w, t, n),
    decreases w,
{
    if w > 0 {
        lemma_workers_nonneg(f, w - 1, t, n);
        lemma_strided_bound(f, w - 1, t, n);
    }
}

/// The workers below `w` get no more shots than all of them.
proof fn lemma_workers_monotone(f: spec_fn(int) -> int, w: int, u: int, t: int, n: int)
    requires
        0 < t,
        0 <= w <= u,
        forall|d: int| 0 <= d < n ==> 0 <= #[trigger] f(d),
    ensures
        workers_sum(f, w, t, n) <= workers_sum(f, u, t, n),
    decreases u,
{
    if w < u {
        lemma_workers_monotone(f, w, u - 1, t, n);
        lemma_strided_bound(f, u - 1, t, n);
    }
}

/// The noise fits every chunk of a call.
pub open spec fn all_noise_fits(plan: &SamplerPlan, shots: int, noise: Seq<ChunkNoise>) -> bool {
    &&& chunk_count(shots, plan.options.sample_chunk_shots as int, noise.len() as int)
    &&& forall|c: int|
        0 <= c < noise.len() ==> noise_fits(
            plan,
            chunk_len(shots, plan.options.sample_chunk_shots as int, c),
            #[trigger] noise[c],
        )
}

/// Some chunk of a call fails with the text.
pub open spec fn call_refused<A, K: ActiveKernels<A>>(
    k: &K,
    plan: &SamplerPlan,
    keep: bool,
    shots: int,
    noise: Seq<ChunkNoise>,
    text: Seq<char>,
) -> bool {
    exists|c: int|
        0 <= c < noise.len() && chunk_refused::<A, K>(
            k,
            plan,
            keep,
            chunk_len(shots, plan.options.sample_chunk_shots as int, c),
            #[trigger] noise[c],
            text,
        )
}

/// Runs every chunk of one worker.
#[verifier::rlimit(40)]
pub fn run_worker<A: Copy, K: ActiveKernels<A>>(
    k: &K,
    plan: &SamplerPlan,
    worker: &mut BatchWorker<A>,
    worker_id: usize,
    active_threads: usize,
    shots: u64,
    noise: &Vec<ChunkNoise>,
    keep_records: bool,
    bit_packed: bool,
) -> (r: Result<()>)
    requires
        lawful::<A, K>(k),
        plan.wf(),
        old(worker).serves(plan),
        worker_id < active_threads,
        all_noise_fits(plan, shots as int, noise@),
    ensures
        final(worker).serves(plan),
        match r {
            Ok(_) => match worker_left::<A, K>(
                k,
                plan,
                keep_records,
                shots as int,
                noise@,
                worker_id as int,
                active_threads as int,
            ) {
                Some(left) => {
                    &&& holds(
                        &plan.outputs(keep_records, bit_packed),
                        final(worker).tally,
                        left,
                    )
                    &&& final(worker).tally.sound()
                    &&& final(worker).tally.counts.shots == strided_sum(
                        chunk_lens(shots as int, plan.options.sample_chunk_shots as int),
                        worker_id as int,
                        active_threads as int,
                        noise@.len() as int,
                    )
                },
                None => false,
            },
            Err(e) => call_refused::<A, K>(k, plan, keep_records, shots as int, noise@, e@),
        },
{
    let ghost o = plan.outputs(keep_records, bit_packed);
    let ghost n = noise@.len() as int;
    let ghost t = active_threads as int;
    let ghost chunk = plan.options.sample_chunk_shots as int;
    let ghost lens = chunk_lens(shots as int, chunk);
    let ghost total = worker_left::<A, K>(
        k,
        plan,
        keep_records,
        shots as int,
        noise@,
        worker_id as int,
        t,
    );
    worker.tally = blank_tally(plan.observable_records.len());
    let chunk_shots: u64 = plan.options.sample_chunk_shots as u64;
    let count: usize = noise.len();
    let ghost mut done: Seq<Shot<A>> = Seq::empty();
    proof {
        lemma_blank_holds::<A>(&o, worker.tally);
        assert forall|d: int| 0 <= d < n implies 0 <= #[trigger] lens(d) by {
            lemma_chunk_len(shots as int, chunk, n, d);
        }
        law_chunks_cover_the_shots(shots as int, chunk, n);
        law_workers_take_every_chunk_once(lens, t, n);
        lemma_workers_bound(lens, worker_id as int, t, t, n);
        match total {
            Some(rest) => {
                assert(Seq::<Shot<A>>::empty() + rest =~= rest);
            },
            None => {},
        }
    }
    let mut c: usize = worker_id;
    while c < count
        invariant
            lawful::<A, K>(k),
            plan.wf(),
            worker.serves(plan),
            all_noise_fits(plan, shots as int, noise@),
            active_threads > 0,
            t == active_threads,
            count == noise@.len(),
            n == count,
            chunk == plan.options.sample_chunk_shots,
            chunk_shots == chunk,
            lens == chunk_lens(shots as int, chunk),
            o == plan.outputs(keep_records, bit_packed),
            forall|d: int| 0 <= d < n ==> 0 <= #[trigger] lens(d),
            strided_sum(lens, worker_id as int, t, n) <= shots,
            worker.tally.sound(),
            worker.tally.counts.shots + strided_sum(lens, c as int, t, n) == strided_sum(
                lens,
                worker_id as int,
                t,
                n,
            ),
            holds(&o, worker.tally, done),
            total == worker_left::<A, K>(
                k,
                plan,
                keep_records,
                shots as int,
                noise@,
                worker_id as int,
                t,
            ),
            total == match worker_left::<A, K>(
                k,
                plan,
                keep_records,
                shots as int,
                noise@,
                c as int,
                t,
            ) {
                None => None,
                Some(rest) => Some(done + rest),
            },
        decreases count - c,
    {
        proof {
            lemma_chunk_len(shots as int, chunk, n, c as int);
            lemma_strided_bound(lens, c + t, t, n);
        }
        let offset: u64 = c as u64 * chunk_shots;
        let left: u64 = shots - offset;
        let size: usize = if chunk_shots < left {
            plan.options.sample_chunk_shots
        } else {
            left as usize
        };
        assert(size == chunk_len(shots as int, chunk, c as int));
        assert(noise_fits(plan, size as int, noise@[c as int]));
        let ghost before = worker.tally;
        match sample_chunk(k, plan, worker, size, &noise[c], keep_records, bit_packed) {
            Ok(_) => {},
            Err(e) => {
                assert(chunk_refused::<A, K>(
                    k,
                    plan,
                    keep_records,
                    chunk_len(shots as int, plan.options.sample_chunk_shots as int, c as int),
                    noise@[c as int],
                    e@,
                ));
                return Err(e);
            },
        }
        proof {
            let more = left_at::<A, K>(k, plan, keep_records, shots as int, noise@, c as int)->0;
            lemma_holds_more(&o, before, worker.tally, done, more);
            let prior = done;
            done = done + more;
            match worker_left::<A, K>(k, plan, keep_records, shots as int, noise@, c + t, t) {
                None => {},
                Some(rest) => {
                    assert(prior + (more + rest) =~= done + rest);
                },
            }
        }
        if active_threads > count - c {
            c = count;
            proof {
                assert(strided_sum(lens, c as int, t, n) == 0);
            }
        } else {
            c += active_threads;
        }
    }
    assert(done + Seq::<Shot<A>>::empty() =~= done);
    Ok(())
}

impl<A: Copy> Sampler<A> {
    pub open spec fn wf(&self) -> bool {
        &&& self.plan.wf()
        &&& self.workers@.len() == self.plan.options.threads
        &&& forall|w: int|
            0 <= w < self.workers@.len() ==> (#[trigger] self.workers@[w]).serves(&self.plan)
    }
}

/// The rows of a call are too many to address.
pub open spec fn too_large(plan: &SamplerPlan, shots: int, bit_packed: bool) -> bool {
    ||| shots > usize::MAX
    ||| shots * row_width(plan.info.measurement_records as int, bit_packed) > usize::MAX
    ||| shots * row_width(plan.info.detectors as int, bit_packed) > usize::MAX
    ||| shots * row_width(plan.info.observables as int, bit_packed) > usize::MAX
    ||| shots * plan.info.expectation_values > usize::MAX
}

/// Refuses calls whose rows could not be addressed.
pub fn check_output_sizes(plan: &SamplerPlan, shots: u64, bit_packed: bool) -> (r: Result<()>)
    ensures
        match r {
            Ok(_) => !too_large(plan, shots as int, bit_packed),
            Err(e) => too_large(plan, shots as int, bit_packed) && e@
                == "sampling output size exceeds usize"@,
        },
{
    match checked_output_len(shots, output_columns(plan.info.measurement_records, bit_packed)) {
        Ok(_) => {},
        Err(e) => {
            return Err(e);
        },
    }
    match checked_output_len(shots, output_columns(plan.info.detectors, bit_packed)) {
        Ok(_) => {},
        Err(e) => {
            return Err(e);
        },
    }
    match checked_output_len(shots, output_columns(plan.info.observables, bit_packed)) {
        Ok(_) => {},
        Err(e) => {
            return Err(e);
        },
    }
    match checked_output_len(shots, plan.info.expectation_values) {
        Ok(_) => {},
        Err(e) => {
            return Err(e);
        },
    }
    Ok(())
}

/// The result of a call with `t` workers.
pub open spec fn sampled<A, K: ActiveKernels<A>>(
    k: &K,
    plan: &SamplerPlan,
    keep: bool,
    packed: bool,
    shots: int,
    noise: Seq<ChunkNoise>,
    result: SampleResult,
) -> bool {
    let t = workers_for(plan.options.threads as int, noise.len() as int);
    let o = plan.outputs(keep, packed);
    let counts = result.tally.counts;
    &&& result.active_threads == t
    &&& result.bit_packed == packed
    &&& result.record_rows == if keep {
        counts.accepted as int
    } else {
        0
    }
    &&& counts.shots == shots
    &&& counts.shots == counts.accepted + counts.discarded
    &&& counts.accepted == sum_below(
        left_lens::<A, K>(k, plan, keep, shots, noise),
        noise.len() as int,
    )
    &&& forall|i: int|
        0 <= i < plan.observable_records@.len() ==> #[trigger] result.tally.observable_ones@[i]
            == sum_below(
            left_ones::<A, K>(k, plan, keep, shots, noise, &o, i),
            noise.len() as int,
        )
    &&& counts.logical_errors == if plan.options.observable < plan.observable_records@.len() {
        sum_below(
            left_ones::<A, K>(
                k,
                plan,
                keep,
                shots,
                noise,
                &o,
                plan.options.observable as int,
            ),
            noise.len() as int,
        )
    } else {
        0
    }
    &&& match workers_left::<A, K>(k, plan, keep, shots, noise, t, t) {
        Some(left) => holds(&o, result.tally, left),
        None => false,
    }
}

/// Samples `shots` shots under the given noise: the chunks of every worker in turn,
/// then all of them joined.
#[verifier::rlimit(60)]
pub fn sample_impl<A: Copy, K: ActiveKernels<A>>(
    k: &K,
    sampler: &mut Sampler<A>,
    shots: u64,
    noise: &Vec<ChunkNoise>,
    keep_records: bool,
    bit_packed: bool,
) -> (r: Result<SampleResult>)
    requires
        lawful::<A, K>(k),
        old(sampler).wf(),
        all_noise_fits(&old(sampler).plan, shots as int, noise@),
    ensures
        final(sampler).wf(),
        final(sampler).plan == old(sampler).plan,
        match r {
            Ok(result) => {
                &&& keep_records ==> !too_large(&old(sampler).plan, shots as int, bit_packed)
                &&& sampled::<A, K>(
                    k,
                    &old(sampler).plan,
                    keep_records,
                    bit_packed,
                    shots as int,
                    noise@,
                    result,
                )
            },
            Err(e) => {
                ||| keep_records && too_large(&old(sampler).plan, shots as int, bit_packed) && e@
                    == "sampling output size exceeds usize"@
                ||| call_refused::<A, K>(
                    k,
                    &old(sampler).plan,
                    keep_records,
                    shots as int,
                    noise@,
                    e@,
                )
            },
        },
{
    if keep_records {
        match check_output_sizes(&sampler.plan, shots, bit_packed) {
            Ok(_) => {},
            Err(e) => {
                return Err(e);
            },
        }
    }
    let ghost plan = old(sampler).plan;
    let ghost o = plan.outputs(keep_records, bit_packed);
    let ghost n = noise@.len() as int;
    let ghost chunk = plan.options.sample_chunk_shots as int;
    let ghost lens = chunk_lens(shots as int, chunk);
    let active_threads: usize = active_worker_count(
        sampler.plan.options.threads,
        noise.len() as u64,
    );
    let ghost t = active_threads as int;
    let mut total: SampleTally = blank_tally(sampler.plan.observable_records.len());
    let ghost mut done: Seq<Shot<A>> = Seq::empty();
    proof {
        lemma_blank_holds::<A>(&o, total);
        assert forall|d: int| 0 <= d < n implies 0 <= #[trigger] lens(d) by {
            lemma_chunk_len(shots as int, chunk, n, d);
        }
        law_chunks_cover_the_shots(shots as int, chunk, n);
        if t > 0 {
            law_workers_take_every_chunk_once(lens, t, n);
        }
    }
    let mut w: usize = 0;
    while w < active_threads
        invariant
            w <= active_threads,
            active_threads <= sampler.workers@.len(),
            t == active_threads,
            n == noise@.len(),
            lawful::<A, K>(k),
            sampler.wf(),
            sampler.plan == plan,
            plan == old(sampler).plan,
            all_noise_fits(&plan, shots as int, noise@),
            chunk == plan.options.sample_chunk_shots,
            lens == chunk_lens(shots as int, chunk),
            o == plan.outputs(keep_records, bit_packed),
            forall|d: int| 0 <= d < n ==> 0 <= #[trigger] lens(d),
            workers_sum(lens, t, t, n) == shots,
            total.sound(),
            total.observable_ones@.len() == plan.observable_records@.len(),
            total.counts.shots == workers_sum(lens, w as int, t, n),
            holds(&o, total, done),
            workers_left::<A, K>(k, &plan, keep_records, shots as int, noise@, w as int, t) == Some(
                done,
            ),
        decreases active_threads - w,
    {
        proof {
            assert(sampler.workers@[w as int].serves(&plan));
            lemma_workers_monotone(lens, w + 1, t, t, n);
        }
        match run_worker(
            k,
            &sampler.plan,
            &mut sampler.workers[w],
            w,
            active_threads,
            shots,
            noise,
            keep_records,
            bit_packed,
        ) {
            Ok(_) => {},
            Err(e) => {
                return Err(e);
            },
        }
        let ghost own = worker_left::<A, K>(
            k,
            &plan,
            keep_records,
            shots as int,
            noise@,
            w as int,
            t,
        )->0;
        let ghost before = total;
        let ghost tally = sampler.workers@[w as int].tally;
        merge_tally(&mut total, &mut sampler.workers[w].tally);
        proof {
            lemma_joined_holds(&o, before, tally, total, done, own);
            done = done + own;
        }
        w += 1;
    }
    proof {
        assert forall|i: int| 0 <= i < plan.observable_records@.len() implies (
        #[trigger] total.observable_ones@[i]) == sum_below(
            left_ones::<A, K>(k, &plan, keep_records, shots as int, noise@, &o, i),
            n,
        ) by {
            if t > 0 {
                law_counts_do_not_depend_on_workers::<A, K>(
                    k,
                    &plan,
                    keep_records,
                    shots as int,
                    noise@,
                    t,
                    &o,
                    i,
                );
            }
        }
        if t > 0 {
            law_counts_do_not_depend_on_workers::<A, K>(
                k,
                &plan,
                keep_records,
                shots as int,
                noise@,
                t,
                &o,
                plan.options.observable as int,
            );
        }
    }
    let record_rows: usize = if keep_records {
        total.counts.accepted as usize
    } else {
        0
    };
    Ok(SampleResult { tally: total, active_threads, record_rows, bit_packed })
}

} // verus!
