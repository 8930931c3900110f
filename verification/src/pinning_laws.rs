//! What pinned parities ask, and what their wording leaves alone.
use vstd::prelude::*;
use crate::pinning::{
    all_satisfied, constrainable, expression_resolves, fails, fails_at, form_of, is_row,
    lemma_noiseless_stable, lemma_pivots_ext, noiseless, noiseless_run, one_based_record, outcome_at,
    pin_is_ready, pinned, pinned_by, pivots_of, record_refusal, record_value, records_value,
    refuses_record, resolves, rows_of, satisfied, solves, source, writer, written_last, ForcedBranch,
    Form, MeasurementParity, Source,
};
use crate::program::FactoredInstructionProgram;
use crate::symbolic::{
    law_canonical_form_is_semantic, law_conditions_determine_the_masks, lemma_ascending_unique,
    lemma_xor_of_ext, SymbolicBool,
};

verus! {

/// The two lists say the same, constraint by constraint.
pub open spec fn say_the_same(
    program: &FactoredInstructionProgram,
    c: Seq<MeasurementParity>,
    d: Seq<MeasurementParity>,
) -> bool {
    &&& c.len() == d.len()
    &&& forall|i: int|
        0 <= i < c.len() ==> constrainable(program, #[trigger] c[i]) == constrainable(program, d[i])
    &&& forall|i: int, b: spec_fn(i32) -> bool|
        0 <= i < c.len() ==> #[trigger] satisfied(program, c[i], b) == satisfied(program, d[i], b)
}

/// The pins are the same: the same instructions, each with the same assignment.
pub open spec fn same_pins(f: Seq<ForcedBranch>, g: Seq<ForcedBranch>) -> bool {
    &&& f.len() == g.len()
    &&& forall|k: int|
        0 <= k < f.len() ==> {
            &&& (#[trigger] f[k]).instruction == g[k].instruction
            &&& f[k].plan.constant == g[k].plan.constant
            &&& f[k].plan.conditions@ == g[k].plan.conditions@
            &&& f[k].plan.word_indices@ == g[k].plan.word_indices@
            &&& f[k].plan.word_masks@ == g[k].plan.word_masks@
        }
}

proof fn lemma_all_satisfied_same(
    program: &FactoredInstructionProgram,
    c: Seq<MeasurementParity>,
    d: Seq<MeasurementParity>,
    n: int,
    b: spec_fn(i32) -> bool,
)
    requires
        say_the_same(program, c, d),
        n <= c.len(),
        all_satisfied(program, c, n, b),
    ensures
        all_satisfied(program, d, n, b),
{
    assert forall|i: int| 0 <= i < n implies satisfied(program, #[trigger] d[i], b) by {
        assert(satisfied(program, c[i], b));
    }
}

/// Constraints that can be planned do not fail.
proof fn lemma_planned_does_not_fail(
    program: &FactoredInstructionProgram,
    c: Seq<MeasurementParity>,
    d: Seq<MeasurementParity>,
    f: Seq<ForcedBranch>,
    text: Seq<char>,
)
    requires
        say_the_same(program, c, d),
        pinned_by(program, c, f),
    ensures
        !fails(program, d, text),
{
    if fails(program, d, text) {
        let i = choose|i: int| fails_at(program, d, i, text);
        assert(constrainable(program, c[i]));
        assert(constrainable(program, d[i]));
        if refuses_record(program, d[i], text) {
            let j = choose|j: int|
                0 <= j < d[i].records@.len() && record_refusal(
                    program,
                    #[trigger] d[i].records@[j] as int,
                ) == Some(text);
            assert(record_refusal(program, d[i].records@[j] as int) is None);
        } else {
            let b = choose|b: spec_fn(i32) -> bool| #[trigger]
                all_satisfied(program, c, c.len() as int, b);
            lemma_all_satisfied_same(program, c, d, c.len() as int, b);
            assert(all_satisfied(program, d, i + 1, b));
        }
    }
}

/// Lists of pins that solve one system are the same from `k` on.
proof fn lemma_solutions_same(
    program: &FactoredInstructionProgram,
    pivots: Map<int, Form>,
    f: Seq<ForcedBranch>,
    g: Seq<ForcedBranch>,
    k: int,
)
    requires
        solves(program, pivots, f),
        solves(program, pivots, g),
        forall|i: int, j: int| 0 <= i < j < f.len() ==> f[i].instruction < f[j].instruction,
        forall|i: int, j: int| 0 <= i < j < g.len() ==> g[i].instruction < g[j].instruction,
        0 <= k <= f.len(),
        k <= g.len(),
    ensures
        forall|i: int| 0 <= i < k ==> (#[trigger] f[i]).instruction == g[i].instruction,
    decreases k,
{
    if k > 0 {
        let m = k - 1;
        lemma_solutions_same(program, pivots, f, g, m);
        let x = f[m].instruction as int;
        let y = g[m].instruction as int;
        assert(pivots.contains_key(x) && pivots.contains_key(y));
        let at = choose|i: int| 0 <= i < g.len() && (#[trigger] g[i]).instruction == x;
        let back = choose|i: int| 0 <= i < f.len() && (#[trigger] f[i]).instruction == y;
        if at < m {
            assert(f[at].instruction == g[at].instruction);
            assert(f[at].instruction < f[m].instruction);
        }
        if back < m {
            assert(f[back].instruction == g[back].instruction);
            assert(g[back].instruction < g[m].instruction);
        }
        if at > m {
            assert(g[m].instruction < g[at].instruction);
        }
        if back > m {
            assert(f[m].instruction < f[back].instruction);
        }
    }
}

/// No list of pins that solves a system is longer than another.
proof fn lemma_solutions_no_longer(
    program: &FactoredInstructionProgram,
    pivots: Map<int, Form>,
    f: Seq<ForcedBranch>,
    g: Seq<ForcedBranch>,
)
    requires
        solves(program, pivots, f),
        solves(program, pivots, g),
        forall|i: int, j: int| 0 <= i < j < f.len() ==> f[i].instruction < f[j].instruction,
        forall|i: int, j: int| 0 <= i < j < g.len() ==> g[i].instruction < g[j].instruction,
    ensures
        f.len() <= g.len(),
{
    if f.len() > g.len() {
        let m = g.len() as int;
        lemma_solutions_same(program, pivots, f, g, m);
        let x = f[m].instruction as int;
        assert(pivots.contains_key(x));
        let at = choose|i: int| 0 <= i < g.len() && (#[trigger] g[i]).instruction == x;
        assert(f[at].instruction == g[at].instruction);
        assert(f[at].instruction < f[m].instruction);
    }
}

/// Constraints that say the same are pinned the same: one list can be planned exactly
/// when the other can, and then the pins agree.
pub proof fn law_same_constraints_same_pins(
    program: &FactoredInstructionProgram,
    c: Seq<MeasurementParity>,
    d: Seq<MeasurementParity>,
    f: Seq<ForcedBranch>,
)
    requires
        say_the_same(program, c, d),
        pinned_by(program, c, f),
    ensures
        forall|text: Seq<char>| !#[trigger] fails(program, d, text),
        forall|g: Seq<ForcedBranch>| #[trigger] pinned_by(program, d, g) ==> same_pins(f, g),
{
    let n = c.len() as int;
    assert forall|text: Seq<char>| !#[trigger] fails(program, d, text) by {
        lemma_planned_does_not_fail(program, c, d, f, text);
    }
    assert forall|g: Seq<ForcedBranch>| #[trigger] pinned_by(program, d, g) implies same_pins(f, g) by {
        let x = choose|rows: Seq<SymbolicBool>| #[trigger]
            rows_of(program, c, rows) && solves(program, pivots_of(program, rows, n), f);
        let y = choose|rows: Seq<SymbolicBool>| #[trigger]
            rows_of(program, d, rows) && solves(program, pivots_of(program, rows, n), g);
        assert forall|i: int| 0 <= i < n implies form_of(#[trigger] x[i]) == form_of(y[i]) by {
            assert(is_row(program, c[i], x[i]));
            assert(is_row(program, d[i], y[i]));
            assert forall|b: spec_fn(i32) -> bool| #[trigger] x[i].value(b) == y[i].value(b) by {
                assert(satisfied(program, c[i], b) == satisfied(program, d[i], b));
            }
            law_canonical_form_is_semantic(x[i], y[i]);
        }
        lemma_pivots_ext(program, x, y, n);
        let pivots = pivots_of(program, x, n);
        lemma_solutions_no_longer(program, pivots, f, g);
        lemma_solutions_no_longer(program, pivots, g, f);
        lemma_solutions_same(program, pivots, f, g, f.len() as int);
        assert forall|k: int| 0 <= k < f.len() implies {
            &&& (#[trigger] f[k]).instruction == g[k].instruction
            &&& f[k].plan.constant == g[k].plan.constant
            &&& f[k].plan.conditions@ == g[k].plan.conditions@
            &&& f[k].plan.word_indices@ == g[k].plan.word_indices@
            &&& f[k].plan.word_masks@ == g[k].plan.word_masks@
        } by {
            assert(pin_is_ready(program, f[k]) && pin_is_ready(program, g[k]));
            assert(pinned(program, f[k]) == pinned(program, g[k]));
            assert forall|e: i32| f[k].plan.conditions@.contains(e)
                == #[trigger] g[k].plan.conditions@.contains(e) by {}
            lemma_ascending_unique(f[k].plan.conditions@, g[k].plan.conditions@);
            law_conditions_determine_the_masks(f[k].plan, g[k].plan);
        }
    }
}

/// The value of a list of records with one more in it.
proof fn lemma_record_inserted(
    program: &FactoredInstructionProgram,
    records: Seq<usize>,
    i: int,
    record: usize,
    b: spec_fn(i32) -> bool,
)
    requires
        0 <= i <= records.len(),
    ensures
        records_value(program, records.insert(i, record), b) == (records_value(program, records, b)
            != record_value(program, record as int, b)),
    decreases records.len(),
{
    let more = records.insert(i, record);
    if i == records.len() {
        assert(more.drop_last() =~= records);
        assert(more.last() == record);
    } else {
        lemma_record_inserted(program, records.drop_last(), i, record, b);
        assert(more.drop_last() =~= records.drop_last().insert(i, record));
        assert(more.last() == records.last());
    }
}

/// Listing a record twice more changes nothing: the constraints can be planned exactly
/// when they could before, and the pins stay the same.
pub proof fn law_repeated_records_cancel(
    program: &FactoredInstructionProgram,
    constraints: Seq<MeasurementParity>,
    at: int,
    longer: MeasurementParity,
    i: int,
    j: int,
    record: usize,
)
    requires
        0 <= at < constraints.len(),
        0 <= i <= constraints[at].records@.len(),
        0 <= j <= constraints[at].records@.len() + 1,
        record_refusal(program, record as int) is None,
        longer.value == constraints[at].value,
        longer.records@ == constraints[at].records@.insert(i, record).insert(j, record),
    ensures
        forall|f: Seq<ForcedBranch>, text: Seq<char>|
            #[trigger] pinned_by(program, constraints, f) ==> !#[trigger] fails(
                program,
                constraints.update(at, longer),
                text,
            ),
        forall|g: Seq<ForcedBranch>, text: Seq<char>|
            #[trigger] pinned_by(program, constraints.update(at, longer), g) ==> !#[trigger] fails(
                program,
                constraints,
                text,
            ),
        forall|f: Seq<ForcedBranch>, g: Seq<ForcedBranch>|
            #[trigger] pinned_by(program, constraints, f) && #[trigger] pinned_by(
                program,
                constraints.update(at, longer),
                g,
            ) ==> same_pins(f, g),
{
    let d = constraints.update(at, longer);
    let once = constraints[at].records@.insert(i, record);
    let short = constraints[at].records@;
    assert(constrainable(program, longer) == constrainable(program, constraints[at])) by {
        assert(once[i] == record);
        assert(longer.records@[j] == record);
        if constrainable(program, longer) {
            assert forall|k: int| 0 <= k < short.len() implies record_refusal(
                program,
                #[trigger] short[k] as int,
            ) is None by {
                let m = if k < i {
                    k
                } else {
                    k + 1
                };
                assert(once[m] == short[k]);
                let l = if m < j {
                    m
                } else {
                    m + 1
                };
                assert(longer.records@[l] == short[k]);
            }
        }
        if constrainable(program, constraints[at]) {
            assert forall|l: int| 0 <= l < longer.records@.len() implies record_refusal(
                program,
                #[trigger] longer.records@[l] as int,
            ) is None by {
                if l != j {
                    let m = if l < j {
                        l
                    } else {
                        l - 1
                    };
                    assert(longer.records@[l] == once[m]);
                    if m != i {
                        let k = if m < i {
                            m
                        } else {
                            m - 1
                        };
                        assert(once[m] == short[k]);
                    }
                }
            }
        }
    }
    assert forall|k: int, b: spec_fn(i32) -> bool| 0 <= k < d.len() implies #[trigger] satisfied(
        program,
        d[k],
        b,
    ) == satisfied(program, constraints[k], b) by {
        if k == at {
            lemma_record_inserted(program, short, i, record, b);
            lemma_record_inserted(program, once, j, record, b);
        }
    }
    assert(say_the_same(program, d, constraints));
    assert forall|k: int, b: spec_fn(i32) -> bool| 0 <= k < d.len() implies #[trigger] satisfied(
        program,
        constraints[k],
        b,
    ) == satisfied(program, d[k], b) by {
        assert(satisfied(program, d[k], b) == satisfied(program, constraints[k], b));
    }
    assert(say_the_same(program, constraints, d));
    assert forall|f: Seq<ForcedBranch>, text: Seq<char>| #[trigger]
        pinned_by(program, constraints, f) implies !#[trigger] fails(program, d, text) by {
        law_same_constraints_same_pins(program, constraints, d, f);
    }
    assert forall|g: Seq<ForcedBranch>, text: Seq<char>| #[trigger]
        pinned_by(program, d, g) implies !#[trigger] fails(program, constraints, text) by {
        law_same_constraints_same_pins(program, d, constraints, g);
    }
    assert forall|f: Seq<ForcedBranch>, g: Seq<ForcedBranch>| #[trigger]
        pinned_by(program, constraints, f) && #[trigger] pinned_by(program, d, g) implies same_pins(
        f,
        g,
    ) by {
        law_same_constraints_same_pins(program, constraints, d, f);
    }
}

// ---------------------------------------------------------------------------
// What a constraint asks
// ---------------------------------------------------------------------------
/// In the noiseless circuit noise never fires, a drawn branch comes out as chosen, and a
/// derived symbol has the value of its expression in the same circuit.
pub proof fn law_noiseless_symbols_follow_their_sources(
    program: &FactoredInstructionProgram,
    symbol: i32,
    b: spec_fn(i32) -> bool,
    d: int,
)
    requires
        resolves(program, symbol, d),
    ensures
        match source(program, symbol) {
            Source::Noise => !noiseless(program, symbol, b, d),
            Source::Branch => noiseless(program, symbol, b, d) == b(symbol),
            Source::Derived(i) => noiseless(program, symbol, b, d) == outcome_at(program, i).value(
                noiseless_run(program, b, d),
            ),
        },
{
    if let Source::Derived(i) = source(program, symbol) {
        let e = outcome_at(program, i);
        assert(expression_resolves(program, e, d - 1));
        lemma_expression_stable(program, e, b, d - 1, d);
    }
}

proof fn lemma_expression_stable(
    program: &FactoredInstructionProgram,
    e: SymbolicBool,
    b: spec_fn(i32) -> bool,
    d: int,
    later: int,
)
    requires
        expression_resolves(program, e, d),
        d <= later,
    ensures
        e.value(noiseless_run(program, b, d)) == e.value(noiseless_run(program, b, later)),
{
    let f = noiseless_run(program, b, d);
    let g = noiseless_run(program, b, later);
    let c = e.conditions@;
    assert forall|k: int| 0 <= k < c.len() implies f(#[trigger] c[k]) == g(c[k]) by {
        assert(resolves(program, c[k], d));
        lemma_noiseless_stable(program, c[k], b, d, later);
        assert(noiseless(program, c[k], b, d) == noiseless(program, c[k], b, later));
    }
    lemma_xor_of_ext(c, f, g);
}

/// The noiseless value of a record is that of the expression that was written to it last.
pub proof fn law_a_record_holds_what_was_written_last(
    program: &FactoredInstructionProgram,
    record: int,
    i: int,
    b: spec_fn(i32) -> bool,
    d: int,
)
    requires
        written_last(program, program.instructions@.len() as int, one_based_record(record), i),
        expression_resolves(program, outcome_at(program, i), d),
    ensures
        record_value(program, record, b) == outcome_at(program, i).value(noiseless_run(program, b, d)),
{
    let n = program.instructions@.len() as int;
    let w = writer(program, record);
    assert(written_last(program, n, one_based_record(record), w));
    if w < i {
        assert(program.instructions@[i].writes() != Some(one_based_record(record)));
    } else if i < w {
        assert(program.instructions@[w].writes() != Some(one_based_record(record)));
    }
    let e = outcome_at(program, i);
    let other = choose|x: int| expression_resolves(program, e, x);
    if other <= d {
        lemma_expression_stable(program, e, b, other, d);
    } else {
        lemma_expression_stable(program, e, b, d, other);
    }
}

/// A constraint holds exactly where the number of its records that are set is odd, for a
/// constraint to one, or even, for a constraint to zero.
pub proof fn law_constraints_count_their_records(
    program: &FactoredInstructionProgram,
    constraint: MeasurementParity,
    b: spec_fn(i32) -> bool,
)
    ensures
        satisfied(program, constraint, b) == (constraint.records@.filter(
            |q: usize| record_value(program, q as int, b),
        ).len() % 2 == if constraint.value {
            1int
        } else {
            0
        }),
{
    lemma_records_count(program, constraint.records@, b);
}

proof fn lemma_records_count(
    program: &FactoredInstructionProgram,
    records: Seq<usize>,
    b: spec_fn(i32) -> bool,
)
    ensures
        records_value(program, records, b) == (records.filter(
            |q: usize| record_value(program, q as int, b),
        ).len() % 2 == 1),
    decreases records.len(),
{
    reveal(Seq::filter);
    if records.len() > 0 {
        lemma_records_count(program, records.drop_last(), b);
    }
}

} // verus!
