//! What the drawn noise sets: which symbols of which shots, family by family.
use vstd::prelude::*;
use crate::bits::{row_bit, word_bit};
use crate::exogenous::{
    assignment_hits, biased_bit, categorical_draw_wf, categorical_hits, coin_bit, drawable,
    draws_wf, drawn_bit, first_head, hit_on, hit_parity, lemma_hit_parity_concat,
    lemma_skips_bounded, low_draw_wf, low_hits, rare_draw_wf, rare_hits, skips_from, BiasedCoins,
    BiasedDraw, ExogenousDraws, Hit,
};
use crate::program::{BernoulliSampleGroup, FactoredInstructionProgram, RareCategoricalSampleGroup};

verus! {

// ---------------------------------------------------------------------------
// Gaps
// ---------------------------------------------------------------------------
/// Geometric gaps select positions one after another: the first lies a gap behind the
/// start, each of the others a gap behind the position after the last, and the
/// selection ends with the first one past the end.
pub proof fn law_gaps_select_positions(gaps: Seq<u64>, total: int, draw: int)
    requires
        0 <= draw <= total <= u64::MAX,
    ensures
        ({
            let p = skips_from(gaps, total, draw);
            &&& p.len() <= gaps.len()
            &&& p.len() > 0 ==> p[0] == draw + gaps[0]
            &&& forall|k: int|
                0 < k < p.len() ==> #[trigger] p[k] == p[k - 1] + 1 + gaps[k]
            &&& forall|k: int| 0 <= k < p.len() ==> draw <= #[trigger] p[k] < total
            &&& p.len() < gaps.len() ==> (if p.len() == 0 {
                draw
            } else {
                p[p.len() - 1] + 1
            }) + gaps[p.len() as int] >= total
        }),
    decreases gaps.len(),
{
    lemma_skips_bounded(gaps, total, draw);
    if gaps.len() == 0 || gaps[0] >= total - draw {
    } else {
        let next = draw + gaps[0] + 1;
        let rest = skips_from(gaps.skip(1), total, next);
        let p = skips_from(gaps, total, draw);
        law_gaps_select_positions(gaps.skip(1), total, next);
        assert(p == seq![(draw + gaps[0]) as u64] + rest);
        assert forall|k: int| 0 < k < p.len() implies #[trigger] p[k] == p[k - 1] + 1 + gaps[k] by {
            assert(p[k] == rest[k - 1]);
            if k > 1 {
                assert(p[k - 1] == rest[k - 2]);
                assert(gaps.skip(1)[k - 1] == gaps[k]);
            } else {
                assert(gaps.skip(1)[0] == gaps[1]);
            }
        }
        if p.len() < gaps.len() {
            assert(gaps.skip(1)[rest.len() as int] == gaps[p.len() as int]);
            if rest.len() > 0 {
                assert(p[p.len() - 1] == rest[rest.len() - 1]);
            }
        }
    }
}

proof fn lemma_skips_ascend(gaps: Seq<u64>, total: int, a: int, b: int)
    requires
        0 <= total <= u64::MAX,
        0 <= a < b < skips_from(gaps, total, 0).len(),
    ensures
        skips_from(gaps, total, 0)[a] < skips_from(gaps, total, 0)[b],
    decreases b,
{
    law_gaps_select_positions(gaps, total, 0);
    if a < b - 1 {
        lemma_skips_ascend(gaps, total, a, b - 1);
    }
}

// ---------------------------------------------------------------------------
// Assignments
// ---------------------------------------------------------------------------
/// No condition is listed twice.
pub open spec fn listed_once(conditions: Seq<i32>) -> bool {
    forall|a: int, b: int|
        0 <= a < b < conditions.len() ==> #[trigger] conditions[a] != #[trigger] conditions[b]
}

proof fn lemma_last_hit(hits: Seq<Hit>, h: Hit, row: int, shot: int)
    ensures
        hit_parity(hits.push(h), row, shot) == (hit_parity(hits, row, shot) != (h.row == row && h.shot
            == shot)),
{
    assert(hits.push(h).drop_last() =~= hits);
}

proof fn lemma_assignment_parity(
    conditions: Seq<i32>,
    assignment: Seq<u64>,
    shot: int,
    n: int,
    m: int,
    i: int,
    nsymbols: int,
)
    requires
        drawable(conditions, nsymbols),
        nsymbols <= i32::MAX,
        listed_once(conditions),
        0 <= n <= conditions.len(),
        0 <= m < conditions.len(),
        0 <= shot <= u32::MAX,
    ensures
        hit_parity(assignment_hits(conditions, assignment, shot, n), conditions[m] - 1, i) == (i == shot
            && m < n && row_bit(assignment, m)),
    decreases n,
{
    if n > 0 {
        lemma_assignment_parity(conditions, assignment, shot, n - 1, m, i, nsymbols);
        assert(0 < conditions[n - 1] <= nsymbols);
        assert(0 < conditions[m] <= nsymbols);
        if row_bit(assignment, n - 1) {
            lemma_last_hit(
                assignment_hits(conditions, assignment, shot, n - 1),
                hit_on(conditions[n - 1], shot),
                conditions[m] - 1,
                i,
            );
            if m < n - 1 {
                assert(conditions[m] != conditions[n - 1]);
            } else if m > n - 1 {
                assert(conditions[n - 1] != conditions[m]);
            }
        }
    }
}

proof fn lemma_foreign_parity(
    conditions: Seq<i32>,
    assignment: Seq<u64>,
    shot: int,
    n: int,
    c: i32,
    i: int,
    nsymbols: int,
)
    requires
        drawable(conditions, nsymbols),
        nsymbols <= i32::MAX,
        0 <= n <= conditions.len(),
        c > 0,
        forall|a: int| 0 <= a < conditions.len() ==> #[trigger] conditions[a] != c,
        0 <= shot <= u32::MAX,
    ensures
        !hit_parity(assignment_hits(conditions, assignment, shot, n), c - 1, i),
    decreases n,
{
    if n > 0 {
        lemma_foreign_parity(conditions, assignment, shot, n - 1, c, i, nsymbols);
        assert(0 < conditions[n - 1] <= nsymbols);
        if row_bit(assignment, n - 1) {
            lemma_last_hit(
                assignment_hits(conditions, assignment, shot, n - 1),
                hit_on(conditions[n - 1], shot),
                c - 1,
                i,
            );
        }
    }
}

// ---------------------------------------------------------------------------
// Categorical distributions
// ---------------------------------------------------------------------------
/// A categorical distribution sets, in every shot, exactly those of its conditions whose
/// bit is set in the row that was drawn for that shot.
pub proof fn law_a_category_sets_its_row(
    program: &FactoredInstructionProgram,
    draws: ExogenousDraws,
    shots: int,
    j: int,
    m: int,
    i: int,
)
    requires
        draws_wf(program, draws, shots),
        0 <= shots <= u32::MAX,
        program.nsymbols <= i32::MAX,
        0 <= j < program.sampled_categorical_distributions@.len(),
        listed_once(program.sampled_categorical_distributions@[j].conditions@),
        0 <= m < program.sampled_categorical_distributions@[j].conditions@.len(),
        0 <= i < shots,
    ensures
        ({
            let d = program.sampled_categorical_distributions@[j];
            let row = d.assignments@[draws.categorical@[j]@[i] as int]@;
            drawn_bit(program, draws, shots, j, d.conditions@[m], i) == row_bit(row, m)
        }),
{
    let d = program.sampled_categorical_distributions@[j];
    let rows = draws.categorical@[j]@;
    assert(categorical_draw_wf(d, rows, program.nsymbols as int, shots));
    lemma_categorical(d, rows, shots, m, i, program.nsymbols as int);
}

proof fn lemma_categorical(
    d: crate::symbolic::SymbolicCategoricalDistribution,
    rows: Seq<usize>,
    n: int,
    m: int,
    i: int,
    nsymbols: int,
)
    requires
        drawable(d.conditions@, nsymbols),
        nsymbols <= i32::MAX,
        listed_once(d.conditions@),
        0 <= m < d.conditions@.len(),
        0 <= n <= u32::MAX,
        0 <= i,
    ensures
        hit_parity(categorical_hits(d, rows, n), d.conditions@[m] - 1, i) == (i < n && row_bit(
            d.assignments@[rows[i] as int]@,
            m,
        )),
    decreases n,
{
    if n > 0 {
        lemma_categorical(d, rows, n - 1, m, i, nsymbols);
        let row = d.assignments@[rows[n - 1] as int]@;
        let len = d.conditions@.len() as int;
        lemma_hit_parity_concat(
            categorical_hits(d, rows, n - 1),
            assignment_hits(d.conditions@, row, n - 1, len),
            d.conditions@[m] - 1,
            i,
        );
        lemma_assignment_parity(d.conditions@, row, n - 1, len, m, i, nsymbols);
    }
}

// ---------------------------------------------------------------------------
// Rare groups
// ---------------------------------------------------------------------------
/// No condition occurs twice in the sets, neither in one nor in two of them.
pub open spec fn sets_disjoint(sets: Seq<Vec<i32>>) -> bool {
    &&& forall|x: int| 0 <= x < sets.len() ==> listed_once((#[trigger] sets[x])@)
    &&& forall|x: int, y: int, a: int, b: int|
        0 <= x < y < sets.len() && 0 <= a < sets[x]@.len() && 0 <= b < sets[y]@.len()
            ==> #[trigger] sets[x]@[a] != #[trigger] sets[y]@[b]
}

/// The positions that a rare group's gaps select.
pub open spec fn rare_positions(
    program: &FactoredInstructionProgram,
    draws: ExogenousDraws,
    shots: int,
    r: int,
) -> Seq<u64> {
    let g = program.sampled_rare_categorical_groups@[r];
    skips_from(draws.rare@[r].gaps@, shots * g.conditions@.len() as int, 0)
}

/// The row that event `h` of a rare group was drawn to have.
pub open spec fn event_row(
    program: &FactoredInstructionProgram,
    draws: ExogenousDraws,
    r: int,
    h: int,
) -> Seq<u64> {
    let g = program.sampled_rare_categorical_groups@[r];
    g.assignments@[g.event_rows@[draws.rare@[r].events@[h] as int] as int]@
}

proof fn lemma_rare_parity(
    g: RareCategoricalSampleGroup,
    positions: Seq<u64>,
    events: Seq<usize>,
    n: int,
    x: int,
    m: int,
    i: int,
    nsymbols: int,
    shots: int,
)
    requires
        0 < g.conditions@.len(),
        sets_disjoint(g.conditions@),
        forall|s: int|
            0 <= s < g.conditions@.len() ==> drawable((#[trigger] g.conditions@[s])@, nsymbols),
        nsymbols <= i32::MAX,
        shots <= u32::MAX,
        0 <= n <= positions.len(),
        forall|a: int, b: int| 0 <= a < b < positions.len() ==> positions[a] < positions[b],
        forall|a: int| 0 <= a < positions.len() ==> #[trigger] positions[a] < shots * g.conditions@.len(),
        0 <= x < g.conditions@.len(),
        0 <= m < g.conditions@[x]@.len(),
        0 <= i,
    ensures
        hit_parity(rare_hits(g, positions, events, n), g.conditions@[x]@[m] - 1, i) == exists|h: int|
            0 <= h < n && #[trigger] positions[h] == i * g.conditions@.len() + x && row_bit(
                g.assignments@[g.event_rows@[events[h] as int] as int]@,
                m,
            ),
    decreases n,
{
    let sets = g.conditions@.len() as int;
    let c = g.conditions@[x]@[m];
    if n > 0 {
        lemma_rare_parity(g, positions, events, n - 1, x, m, i, nsymbols, shots);
        let p = positions[n - 1] as int;
        let set = g.conditions@[p % sets]@;
        let row = g.assignments@[g.event_rows@[events[n - 1] as int] as int]@;
        assert(0 <= p % sets < sets && p == (p / sets) * sets + p % sets) by (nonlinear_arith)
            requires
                0 < sets,
        ;
        assert(0 <= p / sets < shots) by (nonlinear_arith)
            requires
                0 <= p < shots * sets,
                0 < sets,
        ;
        lemma_hit_parity_concat(
            rare_hits(g, positions, events, n - 1),
            assignment_hits(set, row, p / sets, set.len() as int),
            c - 1,
            i,
        );
        assert(drawable(g.conditions@[x]@, nsymbols));
        assert(0 < c <= nsymbols);
        assert(drawable(g.conditions@[p % sets]@, nsymbols));
        if p % sets == x {
            assert(listed_once(g.conditions@[x]@));
            lemma_assignment_parity(set, row, p / sets, set.len() as int, m, i, nsymbols);
        } else {
            assert forall|a: int| 0 <= a < set.len() implies #[trigger] set[a] != c by {
                if p % sets < x {
                    assert(g.conditions@[p % sets]@[a] != g.conditions@[x]@[m]);
                } else {
                    assert(g.conditions@[x]@[m] != g.conditions@[p % sets]@[a]);
                }
            }
            lemma_foreign_parity(set, row, p / sets, set.len() as int, c, i, nsymbols);
        }
        assert((p == i * sets + x) == (p % sets == x && p / sets == i)) by {
            if p == i * sets + x {
                vstd::arithmetic::div_mod::lemma_fundamental_div_mod_converse(p, sets, i, x);
            }
        }
        let struck = exists|h: int|
            0 <= h < n - 1 && #[trigger] positions[h] == i * sets + x && row_bit(
                g.assignments@[g.event_rows@[events[h] as int] as int]@,
                m,
            );
        if p == i * sets + x {
            assert forall|h: int| 0 <= h < n - 1 implies #[trigger] positions[h] != i * sets + x by {
                assert(positions[h] < positions[n - 1]);
            }
            assert(!struck);
            if row_bit(row, m) {
                assert(positions[n - 1] == i * sets + x);
            }
        } else if struck {
            let h = choose|h: int|
                0 <= h < n - 1 && #[trigger] positions[h] == i * sets + x && row_bit(
                    g.assignments@[g.event_rows@[events[h] as int] as int]@,
                    m,
                );
            assert(0 <= h < n && positions[h] == i * sets + x);
        }
    }
}

proof fn lemma_rare_family(
    program: &FactoredInstructionProgram,
    draws: ExogenousDraws,
    shots: int,
    r: int,
    x: int,
    m: int,
    i: int,
)
    requires
        draws_wf(program, draws, shots),
        0 <= shots <= u32::MAX,
        program.nsymbols <= i32::MAX,
        0 <= r < program.sampled_rare_categorical_groups@.len(),
        sets_disjoint(program.sampled_rare_categorical_groups@[r].conditions@),
        0 <= x < program.sampled_rare_categorical_groups@[r].conditions@.len(),
        0 <= m < program.sampled_rare_categorical_groups@[r].conditions@[x]@.len(),
        0 <= i,
    ensures
        ({
            let g = program.sampled_rare_categorical_groups@[r];
            let j = program.sampled_categorical_distributions@.len() + r;
            drawn_bit(program, draws, shots, j, g.conditions@[x]@[m], i) == exists|h: int|
                0 <= h < rare_positions(program, draws, shots, r).len() && #[trigger] rare_positions(
                    program,
                    draws,
                    shots,
                    r,
                )[h] == i * g.conditions@.len() + x && row_bit(event_row(program, draws, r, h), m)
        }),
        forall|h: int|
            0 <= h < rare_positions(program, draws, shots, r).len() ==> #[trigger] rare_positions(
                program,
                draws,
                shots,
                r,
            )[h] < shots * program.sampled_rare_categorical_groups@[r].conditions@.len(),
        forall|a: int, b: int|
            0 <= a < b < rare_positions(program, draws, shots, r).len() ==> rare_positions(
                program,
                draws,
                shots,
                r,
            )[a] < rare_positions(program, draws, shots, r)[b],
{
    let g = program.sampled_rare_categorical_groups@[r];
    let draw = draws.rare@[r];
    assert(rare_draw_wf(g, draw, program.nsymbols as int, shots));
    let total = shots * g.conditions@.len() as int;
    assert(total >= 0) by (nonlinear_arith)
        requires
            total == shots * g.conditions@.len() as int,
            shots >= 0,
    ;
    lemma_skips_bounded(draw.gaps@, total, 0);
    let positions = rare_positions(program, draws, shots, r);
    assert forall|a: int, b: int| 0 <= a < b < positions.len() implies positions[a] < positions[b] by {
        lemma_skips_ascend(draw.gaps@, total, a, b);
    }
    lemma_rare_parity(
        g,
        positions,
        draw.events@,
        positions.len() as int,
        x,
        m,
        i,
        program.nsymbols as int,
        shots,
    );
    let n = positions.len() as int;
    let lhs = exists|h: int|
        0 <= h < n && #[trigger] positions[h] == i * g.conditions@.len() + x && row_bit(
            g.assignments@[g.event_rows@[draw.events@[h] as int] as int]@,
            m,
        );
    let rhs = exists|h: int|
        0 <= h < n && #[trigger] positions[h] == i * g.conditions@.len() + x && row_bit(
            event_row(program, draws, r, h),
            m,
        );
    assert(lhs == rhs);
}

/// Hit `h` of a rare group, at position `p`, sets in shot `p / sets` exactly those
/// conditions of set `p % sets` whose bit is set in the row of the event that was drawn
/// for this hit.
pub proof fn law_a_rare_event_sets_its_own_row(
    program: &FactoredInstructionProgram,
    draws: ExogenousDraws,
    shots: int,
    r: int,
    h: int,
    m: int,
)
    requires
        draws_wf(program, draws, shots),
        0 <= shots <= u32::MAX,
        program.nsymbols <= i32::MAX,
        0 <= r < program.sampled_rare_categorical_groups@.len(),
        0 < program.sampled_rare_categorical_groups@[r].conditions@.len(),
        sets_disjoint(program.sampled_rare_categorical_groups@[r].conditions@),
        0 <= h < rare_positions(program, draws, shots, r).len(),
        ({
            let g = program.sampled_rare_categorical_groups@[r];
            let p = rare_positions(program, draws, shots, r)[h] as int;
            0 <= m < g.conditions@[p % g.conditions@.len() as int]@.len()
        }),
    ensures
        ({
            let g = program.sampled_rare_categorical_groups@[r];
            let sets = g.conditions@.len() as int;
            let p = rare_positions(program, draws, shots, r)[h] as int;
            drawn_bit(
                program,
                draws,
                shots,
                program.sampled_categorical_distributions@.len() + r,
                g.conditions@[p % sets]@[m],
                p / sets,
            ) == row_bit(event_row(program, draws, r, h), m)
        }),
{
    let g = program.sampled_rare_categorical_groups@[r];
    let sets = g.conditions@.len() as int;
    let positions = rare_positions(program, draws, shots, r);
    let p = positions[h] as int;
    assert(0 <= p % sets < sets && p == (p / sets) * sets + p % sets && 0 <= p / sets)
        by (nonlinear_arith)
        requires
            0 < sets,
            0 <= p,
    ;
    lemma_rare_family(program, draws, shots, r, p % sets, m, p / sets);
    let i = p / sets;
    let x = p % sets;
    if row_bit(event_row(program, draws, r, h), m) {
        assert(positions[h] == i * sets + x);
    } else {
        assert forall|o: int| 0 <= o < positions.len() && #[trigger] positions[o] == i * sets
            + x implies !row_bit(event_row(program, draws, r, o), m) by {
            if o < h {
                assert(positions[o] < positions[h]);
            } else if h < o {
                assert(positions[h] < positions[o]);
            }
        }
    }
}

/// Where no hit falls on a set in a shot, none of the set's conditions is set there.
pub proof fn law_rare_sets_stay_clear_without_an_event(
    program: &FactoredInstructionProgram,
    draws: ExogenousDraws,
    shots: int,
    r: int,
    x: int,
    m: int,
    i: int,
)
    requires
        draws_wf(program, draws, shots),
        0 <= shots <= u32::MAX,
        program.nsymbols <= i32::MAX,
        0 <= r < program.sampled_rare_categorical_groups@.len(),
        sets_disjoint(program.sampled_rare_categorical_groups@[r].conditions@),
        0 <= x < program.sampled_rare_categorical_groups@[r].conditions@.len(),
        0 <= m < program.sampled_rare_categorical_groups@[r].conditions@[x]@.len(),
        0 <= i,
        forall|h: int|
            0 <= h < rare_positions(program, draws, shots, r).len() ==> #[trigger] rare_positions(
                program,
                draws,
                shots,
                r,
            )[h] != i * program.sampled_rare_categorical_groups@[r].conditions@.len() + x,
    ensures
        !drawn_bit(
            program,
            draws,
            shots,
            program.sampled_categorical_distributions@.len() + r,
            program.sampled_rare_categorical_groups@[r].conditions@[x]@[m],
            i,
        ),
{
    lemma_rare_family(program, draws, shots, r, x, m, i);
}

/// Drawing another event for hit `h` of a rare group changes the conditions of that
/// hit's set in that hit's shot, and of no other set and no other shot.
pub proof fn law_an_event_changes_its_own_shot_alone(
    program: &FactoredInstructionProgram,
    a: ExogenousDraws,
    b: ExogenousDraws,
    shots: int,
    r: int,
    h: int,
    x: int,
    m: int,
    i: int,
)
    requires
        draws_wf(program, a, shots),
        draws_wf(program, b, shots),
        0 <= shots <= u32::MAX,
        program.nsymbols <= i32::MAX,
        0 <= r < program.sampled_rare_categorical_groups@.len(),
        sets_disjoint(program.sampled_rare_categorical_groups@[r].conditions@),
        0 <= h < rare_positions(program, a, shots, r).len(),
        a.rare@[r].gaps@ == b.rare@[r].gaps@,
        forall|o: int|
            0 <= o < rare_positions(program, a, shots, r).len() && o != h
                ==> #[trigger] a.rare@[r].events@[o] == b.rare@[r].events@[o],
        0 <= x < program.sampled_rare_categorical_groups@[r].conditions@.len(),
        0 <= m < program.sampled_rare_categorical_groups@[r].conditions@[x]@.len(),
        0 <= i,
        rare_positions(program, a, shots, r)[h] != i
            * program.sampled_rare_categorical_groups@[r].conditions@.len() + x,
    ensures
        ({
            let c = program.sampled_rare_categorical_groups@[r].conditions@[x]@[m];
            let j = program.sampled_categorical_distributions@.len() + r;
            drawn_bit(program, a, shots, j, c, i) == drawn_bit(program, b, shots, j, c, i)
        }),
{
    lemma_rare_family(program, a, shots, r, x, m, i);
    lemma_rare_family(program, b, shots, r, x, m, i);
    let g = program.sampled_rare_categorical_groups@[r];
    let positions = rare_positions(program, a, shots, r);
    let at = i * g.conditions@.len() + x;
    assert(rare_positions(program, b, shots, r) == positions);
    assert forall|o: int| 0 <= o < positions.len() && #[trigger] positions[o] == at implies event_row(
        program,
        a,
        r,
        o,
    ) == event_row(program, b, r, o) by {
        assert(a.rare@[r].events@[o] == b.rare@[r].events@[o]);
    }
}

// ---------------------------------------------------------------------------
// Low-probability groups
// ---------------------------------------------------------------------------
proof fn lemma_low_parity(
    g: BernoulliSampleGroup,
    positions: Seq<u64>,
    n: int,
    m: int,
    i: int,
    nsymbols: int,
    shots: int,
)
    requires
        0 < g.conditions@.len(),
        listed_once(g.conditions@),
        drawable(g.conditions@, nsymbols),
        nsymbols <= i32::MAX,
        shots <= u32::MAX,
        0 <= n <= positions.len(),
        forall|a: int, b: int| 0 <= a < b < positions.len() ==> positions[a] < positions[b],
        forall|a: int| 0 <= a < positions.len() ==> #[trigger] positions[a] < shots * g.conditions@.len(),
        0 <= m < g.conditions@.len(),
        0 <= i,
    ensures
        hit_parity(low_hits(g, positions, n), g.conditions@[m] - 1, i) == exists|h: int|
            0 <= h < n && #[trigger] positions[h] == i * g.conditions@.len() + m,
    decreases n,
{
    let len = g.conditions@.len() as int;
    let c = g.conditions@[m];
    if n > 0 {
        lemma_low_parity(g, positions, n - 1, m, i, nsymbols, shots);
        let p = positions[n - 1] as int;
        assert(0 <= p % len < len && p == (p / len) * len + p % len) by (nonlinear_arith)
            requires
                0 < len,
        ;
        assert(0 <= p / len < shots) by (nonlinear_arith)
            requires
                0 <= p < shots * len,
                0 < len,
        ;
        assert(0 < g.conditions@[p % len] <= nsymbols);
        assert(0 < c <= nsymbols);
        lemma_last_hit(
            low_hits(g, positions, n - 1),
            hit_on(g.conditions@[p % len], p / len),
            c - 1,
            i,
        );
        assert((g.conditions@[p % len] == c) == (p % len == m)) by {
            if p % len < m {
                assert(g.conditions@[p % len] != g.conditions@[m]);
            } else if m < p % len {
                assert(g.conditions@[m] != g.conditions@[p % len]);
            }
        }
        assert((p == i * len + m) == (p % len == m && p / len == i)) by {
            if p == i * len + m {
                vstd::arithmetic::div_mod::lemma_fundamental_div_mod_converse(p, len, i, m);
            }
        }
        if p == i * len + m {
            assert forall|h: int| 0 <= h < n - 1 implies #[trigger] positions[h] != i * len + m by {
                assert(positions[h] < positions[n - 1]);
            }
            assert(positions[n - 1] == i * len + m);
        } else if exists|h: int| 0 <= h < n - 1 && #[trigger] positions[h] == i * len + m {
            let h = choose|h: int| 0 <= h < n - 1 && #[trigger] positions[h] == i * len + m;
            assert(0 <= h < n && positions[h] == i * len + m);
        }
    }
}

/// A low-probability group sets condition `m` in shot `i` exactly where its gaps select
/// position `i·conditions + m`.
pub proof fn law_a_low_group_sets_its_positions(
    program: &FactoredInstructionProgram,
    draws: ExogenousDraws,
    shots: int,
    l: int,
    m: int,
    i: int,
)
    requires
        draws_wf(program, draws, shots),
        0 <= shots <= u32::MAX,
        program.nsymbols <= i32::MAX,
        0 <= l < program.sampled_low_probability_bernoulli_groups@.len(),
        listed_once(program.sampled_low_probability_bernoulli_groups@[l].conditions@),
        0 <= m < program.sampled_low_probability_bernoulli_groups@[l].conditions@.len(),
        0 <= i < shots,
    ensures
        ({
            let g = program.sampled_low_probability_bernoulli_groups@[l];
            let len = g.conditions@.len() as int;
            let j = program.sampled_categorical_distributions@.len()
                + program.sampled_rare_categorical_groups@.len()
                + program.sampled_bernoulli_conditions@.len() + l;
            drawn_bit(program, draws, shots, j, g.conditions@[m], i) == skips_from(
                draws.low@[l].gaps@,
                shots * len,
                0,
            ).contains((i * len + m) as u64)
        }),
{
    let g = program.sampled_low_probability_bernoulli_groups@[l];
    let len = g.conditions@.len() as int;
    let gaps = draws.low@[l].gaps@;
    assert(low_draw_wf(g, program.nsymbols as int, shots));
    let total = shots * len;
    assert(0 <= i * len + m < total) by (nonlinear_arith)
        requires
            total == shots * len,
            0 <= i < shots,
            0 <= m < len,
    ;
    lemma_skips_bounded(gaps, total, 0);
    let positions = skips_from(gaps, total, 0);
    assert forall|a: int, b: int| 0 <= a < b < positions.len() implies positions[a] < positions[b] by {
        lemma_skips_ascend(gaps, total, a, b);
    }
    lemma_low_parity(
        g,
        positions,
        positions.len() as int,
        m,
        i,
        program.nsymbols as int,
        shots,
    );
    let at = (i * len + m) as u64;
    if positions.contains(at) {
        let h = positions.index_of(at);
        assert(0 <= h < positions.len() && positions[h] == i * len + m);
    }
}

// ---------------------------------------------------------------------------
// Biased rows
// ---------------------------------------------------------------------------
/// Sampling the complement sets exactly the shots that would have been clear, and
/// nothing behind the last shot is ever set.
pub proof fn law_an_inverted_row_is_the_complement(
    a: BiasedDraw,
    b: BiasedDraw,
    shots: int,
    i: int,
)
    requires
        a.coins == b.coins,
        a.invert != b.invert,
    ensures
        0 <= i < shots ==> biased_bit(a, shots, i) != biased_bit(b, shots, i),
        !(0 <= i < shots) ==> !biased_bit(a, shots, i) && !biased_bit(b, shots, i),
{
}

/// A Bernoulli condition takes the row of its own draw: nothing or everything for
/// coins that never or always come up, bit `i % 64` of word `i / 64` for fair coins, and
/// the positions that the gaps select for rare ones.
pub proof fn law_a_bernoulli_condition_takes_its_row(
    program: &FactoredInstructionProgram,
    draws: ExogenousDraws,
    shots: int,
    m: int,
    c: i32,
    i: int,
)
    requires
        0 <= m < program.sampled_bernoulli_conditions@.len(),
        0 <= i < shots,
        !draws.bernoulli@[m].invert,
    ensures
        ({
            let j = program.sampled_categorical_distributions@.len()
                + program.sampled_rare_categorical_groups@.len() + m;
            let bit = drawn_bit(program, draws, shots, j, c, i);
            match draws.bernoulli@[m].coins {
                BiasedCoins::Never => !bit,
                BiasedCoins::Always => bit,
                BiasedCoins::Fair(words) => i / 64 < words@.len() ==> bit == word_bit(
                    words@[i / 64],
                    i % 64,
                ),
                BiasedCoins::Skip(gaps) => bit == skips_from(gaps@, shots, 0).contains(i as u64),
                BiasedCoins::Binary { top_bits, coins, gaps } => skips_from(gaps@, shots, 0).contains(
                    i as u64,
                ) ==> bit,
            }
        }),
{
}

/// How many of the continuations of `tosses` by `n` coins make `hit` true.
pub open spec fn hitting_tosses(hit: spec_fn(Seq<bool>) -> bool, tosses: Seq<bool>, n: nat) -> int
    decreases n,
{
    if n == 0 {
        if hit(tosses) {
            1
        } else {
            0
        }
    } else {
        hitting_tosses(hit, tosses.push(false), (n - 1) as nat) + hitting_tosses(
            hit,
            tosses.push(true),
            (n - 1) as nat,
        )
    }
}

/// Two to the power of `n`.
pub open spec fn tosses_of(n: nat) -> int
    decreases n,
{
    if n == 0 {
        1
    } else {
        2 * tosses_of((n - 1) as nat)
    }
}

/// `coins(t)` holds the tosses `t` for shot `i`.
pub open spec fn spells(coins: spec_fn(Seq<bool>) -> Seq<u64>, i: int) -> bool {
    forall|t: Seq<bool>, j: int|
        t.len() == 8 && 0 <= j < 8 ==> word_bit(#[trigger] coins(t)[8 * (i / 64) + j], i % 64)
            == #[trigger] t[j]
}

/// The decision of the coins of one shot.
pub open spec fn binary_hit(top_bits: u64, coins: Seq<u64>, i: int) -> bool {
    word_bit(coins[8 * (i / 64)], i % 64) && first_head(top_bits, coins, 8 * (i / 64), i % 64, 6)
}

proof fn lemma_settled(hit: spec_fn(Seq<bool>) -> bool, tosses: Seq<bool>, n: nat, value: bool)
    requires
        forall|t: Seq<bool>|
            t.len() == tosses.len() + n && t.take(tosses.len() as int) == tosses ==> #[trigger] hit(t)
                == value,
    ensures
        hitting_tosses(hit, tosses, n) == if value {
            tosses_of(n)
        } else {
            0
        },
    decreases n,
{
    if n == 0 {
        assert(tosses.take(tosses.len() as int) =~= tosses);
        assert(hit(tosses) == value);
    } else {
        let less = (n - 1) as nat;
        assert forall|t: Seq<bool>|
            t.len() == tosses.push(false).len() + less && t.take(tosses.push(false).len() as int)
                == tosses.push(false) implies #[trigger] hit(t) == value by {
            assert(t.take(tosses.len() as int) =~= t.take((tosses.len() + 1) as int).take(
                tosses.len() as int,
            ));
            assert(tosses.push(false).take(tosses.len() as int) =~= tosses);
        }
        assert forall|t: Seq<bool>|
            t.len() == tosses.push(true).len() + less && t.take(tosses.push(true).len() as int)
                == tosses.push(true) implies #[trigger] hit(t) == value by {
            assert(t.take(tosses.len() as int) =~= t.take((tosses.len() + 1) as int).take(
                tosses.len() as int,
            ));
            assert(tosses.push(true).take(tosses.len() as int) =~= tosses);
        }
        lemma_settled(hit, tosses.push(false), less, value);
        lemma_settled(hit, tosses.push(true), less, value);
    }
}

/// The value of the lowest `n` digits.
spec fn low_digits(top_bits: u64, n: nat) -> int
    decreases n,
{
    if n == 0 {
        0
    } else {
        low_digits(top_bits, (n - 1) as nat) + if word_bit(top_bits, n - 1) {
            tosses_of((n - 1) as nat)
        } else {
            0
        }
    }
}

proof fn lemma_low_digits(top_bits: u64)
    requires
        top_bits < 128,
    ensures
        low_digits(top_bits, 7) == top_bits,
{
    reveal_with_fuel(low_digits, 8);
    reveal_with_fuel(tosses_of, 8);
    let t = top_bits;
    assert(t == ((t >> 0u64) & 1u64) + 2 * ((t >> 1u64) & 1u64) + 4 * ((t >> 2u64) & 1u64) + 8 * ((t
        >> 3u64) & 1u64) + 16 * ((t >> 4u64) & 1u64) + 32 * ((t >> 5u64) & 1u64) + 64 * ((t >> 6u64)
        & 1u64) && ((t >> 0u64) & 1u64) <= 1 && ((t >> 1u64) & 1u64) <= 1 && ((t >> 2u64) & 1u64) <= 1
        && ((t >> 3u64) & 1u64) <= 1 && ((t >> 4u64) & 1u64) <= 1 && ((t >> 5u64) & 1u64) <= 1 && ((t
        >> 6u64) & 1u64) <= 1) by (bit_vector)
        requires
            t < 128,
    ;
}

/// The first coin came up and none of the next `len - 1` did: what is left of the digits
/// decides.
proof fn lemma_binary_tail(
    top_bits: u64,
    coins: spec_fn(Seq<bool>) -> Seq<u64>,
    i: int,
    tosses: Seq<bool>,
)
    requires
        spells(coins, i),
        1 <= tosses.len() <= 8,
        tosses[0],
        forall|j: int| 0 < j < tosses.len() ==> !#[trigger] tosses[j],
    ensures
        hitting_tosses(
            |t: Seq<bool>| binary_hit(top_bits, coins(t), i),
            tosses,
            (8 - tosses.len()) as nat,
        ) == low_digits(top_bits, (8 - tosses.len()) as nat),
    decreases 8 - tosses.len(),
{
    let hit = |t: Seq<bool>| binary_hit(top_bits, coins(t), i);
    let len = tosses.len() as int;
    let base = 8 * (i / 64);
    let lane = i % 64;
    if len == 8 {
        let c = coins(tosses);
        assert forall|j: int| 0 <= j < 8 implies word_bit(#[trigger] c[base + j], lane) == tosses[j] by {
            assert(word_bit(coins(tosses)[8 * (i / 64) + j], i % 64) == tosses[j]);
        }
        lemma_no_head(top_bits, c, base, lane, 6);
        assert(!hit(tosses));
    } else {
        let rest = (7 - len) as nat;
        let digit = word_bit(top_bits, 7 - len);
        lemma_binary_tail(top_bits, coins, i, tosses.push(false));
        assert forall|t: Seq<bool>|
            t.len() == tosses.push(true).len() + rest && t.take(tosses.push(true).len() as int)
                == tosses.push(true) implies #[trigger] hit(t) == digit by {
            let c = coins(t);
            assert forall|j: int| 0 <= j < 8 implies word_bit(#[trigger] c[base + j], lane) == t[j] by {
                assert(word_bit(coins(t)[8 * (i / 64) + j], i % 64) == t[j]);
            }
            assert forall|j: int| 0 <= j <= len implies t[j] == tosses.push(true)[j] by {
                assert(t.take(len + 1)[j] == t[j]);
            }
            assert(word_bit(coins(t)[8 * (i / 64) + 0], i % 64) == t[0]);
            assert(word_bit(coins(t)[8 * (i / 64) + len], i % 64) == t[len]);
            assert(base + (7 - (7 - len)) == base + len);
            lemma_head_at(top_bits, c, base, lane, 6, 7 - len);
        }
        lemma_settled(hit, tosses.push(true), rest, digit);
        assert(hitting_tosses(hit, tosses, (8 - len) as nat) == hitting_tosses(
            hit,
            tosses.push(false),
            rest,
        ) + hitting_tosses(hit, tosses.push(true), rest));
    }
}

proof fn lemma_no_head(top_bits: u64, coins: Seq<u64>, base: int, lane: int, b: int)
    requires
        -1 <= b <= 6,
        forall|j: int| 7 - b <= j < 8 ==> !word_bit(#[trigger] coins[base + j], lane),
    ensures
        !first_head(top_bits, coins, base, lane, b),
    decreases b + 1,
{
    if b >= 0 {
        assert(coins[base + 7 - b] == coins[base + (7 - b)]);
        lemma_no_head(top_bits, coins, base, lane, b - 1);
    }
}

proof fn lemma_head_at(top_bits: u64, coins: Seq<u64>, base: int, lane: int, b: int, at: int)
    requires
        0 <= at <= b <= 6,
        forall|j: int| 7 - b <= j < 7 - at ==> !word_bit(#[trigger] coins[base + j], lane),
        word_bit(coins[base + (7 - at)], lane),
    ensures
        first_head(top_bits, coins, base, lane, b) == word_bit(top_bits, at),
    decreases b - at,
{
    assert(coins[base + 7 - b] == coins[base + (7 - b)]);
    if b > at {
        lemma_head_at(top_bits, coins, base, lane, b - 1, at);
    }
}

/// Of the 256 ways in which a shot's eight coins can fall, exactly `top_bits` set the
/// shot: the row has the probability that its eight binary digits spell.
pub proof fn law_binary_coins_hit_as_often_as_their_digits_say(
    top_bits: u64,
    coins: spec_fn(Seq<bool>) -> Seq<u64>,
    i: int,
)
    requires
        spells(coins, i),
        top_bits < 128,
        0 <= i,
    ensures
        hitting_tosses(
            |t: Seq<bool>| binary_hit(top_bits, coins(t), i),
            Seq::<bool>::empty(),
            8,
        ) == top_bits,
        forall|draw: BiasedCoins, shots: int|
            match draw {
                BiasedCoins::Binary { top_bits: t, coins: c, gaps } => #[trigger] coin_bit(
                    draw,
                    shots,
                    i,
                ) == (binary_hit(t, c@, i) || skips_from(gaps@, shots, 0).contains(i as u64)),
                _ => true,
            },
{
    let hit = |t: Seq<bool>| binary_hit(top_bits, coins(t), i);
    let none = Seq::<bool>::empty();
    lemma_binary_tail(top_bits, coins, i, none.push(true));
    lemma_low_digits(top_bits);
    assert forall|t: Seq<bool>|
        t.len() == none.push(false).len() + 7 && t.take(none.push(false).len() as int) == none.push(
            false,
        ) implies #[trigger] hit(t) == false by {
        assert(t.take(1)[0] == t[0]);
        assert(word_bit(coins(t)[8 * (i / 64) + 0], i % 64) == t[0]);
    }
    lemma_settled(hit, none.push(false), 7, false);
    assert(hitting_tosses(hit, none, 8) == hitting_tosses(hit, none.push(false), 7) + hitting_tosses(
        hit,
        none.push(true),
        7,
    ));
}

} // verus!
