//! Pinned measurement parities: fixing what the *noiseless* circuit measures.
//!
//! A caller says "the XOR of these measurement records is 1 in the noiseless
//! circuit". A record's value is its intrinsic measurement branch XOR a frame
//! that, in the noiseless circuit, contains only exogenous noise symbols, all
//! zero. So the constraint expands into a linear equation over the *branch*
//! symbols, and that is where it is enforced: pinning the recorded parity itself
//! would suppress the noise-induced flips that a decoder is meant to correct.
//!
//! Every constraint becomes one row over branch symbols. Rows are reduced against
//! each other by elimination over GF(2), each row taking as its pivot the branch
//! drawn *last*, so when the pivot instruction runs every other term of its row
//! already holds a value. A row that reduces to no branches at all is
//! deterministic: it either already holds, or the constraint is impossible.
use std::collections::{HashMap, HashSet};
use vstd::prelude::*;
use crate::errors::{decimal, push_decimal, Result, TicitError};
use crate::program::{FactoredInstruction, FactoredInstructionProgram};
use crate::symbolic::{
    canonical, lemma_xor_of_ext, symbolic_bool, xor_bool, xor_of, SymbolicBool,
    SymbolicBoolEvaluationPlan,
};

verus! {

broadcast use vstd::std_specs::hash::group_hash_axioms;

/// A parity the noiseless circuit must produce over a set of measurement
/// records.
#[derive(Clone, Debug, Default, PartialEq, Eq)]
pub struct MeasurementParity {
    /// Zero-based measurement records whose XOR is constrained. Repeated indices
    /// cancel, as XOR implies.
    pub records: Vec<usize>,
    /// The value that XOR must take in the noiseless circuit.
    pub value: bool,
}

impl MeasurementParity {
    /// A constraint on the XOR of `records`.
    pub fn new(records: Vec<usize>, value: bool) -> (r: Self)
        ensures
            r.records@ == records@,
            r.value == value,
    {
        MeasurementParity { records, value }
    }
}

/// One pinned measurement branch: at `instruction`, the branch symbol takes the
/// value of `plan` instead of being drawn.
#[derive(Clone, Debug)]
pub struct ForcedBranch {
    pub instruction: usize,
    pub plan: SymbolicBoolEvaluationPlan,
}

// ---------------------------------------------------------------------------
// Where symbols come from
// ---------------------------------------------------------------------------
/// How a symbol gets its value: a symbol that no instruction assigns is noise.
pub enum Source {
    Noise,
    Branch,
    Derived(int),
}

/// Whether an instruction below `n` draws `symbol`.
pub open spec fn is_drawn(program: &FactoredInstructionProgram, n: int, symbol: i32) -> bool {
    exists|i: int|
        0 <= i < n && (#[trigger] program.instructions@[i]).drawn() == Some(symbol)
}

/// `i` is the last instruction below `n` that draws `symbol`.
pub open spec fn drawn_last(
    program: &FactoredInstructionProgram,
    n: int,
    symbol: i32,
    i: int,
) -> bool {
    &&& 0 <= i < n
    &&& program.instructions@[i].drawn() == Some(symbol)
    &&& forall|k: int|
        i < k < n ==> (#[trigger] program.instructions@[k]).drawn() != Some(symbol)
}

/// `i` is the first instruction below `n` whose record `symbol` stands for.
pub open spec fn derived_first(
    program: &FactoredInstructionProgram,
    n: int,
    symbol: i32,
    i: int,
) -> bool {
    &&& 0 <= i < n
    &&& program.instructions@[i].derives() == Some(symbol)
    &&& forall|k: int|
        0 <= k < i ==> (#[trigger] program.instructions@[k]).derives() != Some(symbol)
}

/// `i` is the last instruction below `n` that writes the one-based `record`.
pub open spec fn written_last(
    program: &FactoredInstructionProgram,
    n: int,
    record: i32,
    i: int,
) -> bool {
    &&& 0 <= i < n
    &&& program.instructions@[i].writes() == Some(record)
    &&& forall|k: int|
        i < k < n ==> (#[trigger] program.instructions@[k]).writes() != Some(record)
}

/// What assigns `symbol`, looking at the instructions below `n`.
pub open spec fn source_below(program: &FactoredInstructionProgram, n: int, symbol: i32) -> Source {
    if is_drawn(program, n, symbol) {
        Source::Branch
    } else if exists|i: int| derived_first(program, n, symbol, i) {
        Source::Derived(choose|i: int| derived_first(program, n, symbol, i))
    } else {
        Source::Noise
    }
}

/// What assigns `symbol` in the program.
pub open spec fn source(program: &FactoredInstructionProgram, symbol: i32) -> Source {
    source_below(program, program.instructions@.len() as int, symbol)
}

/// The expression that a derived symbol stands for.
pub open spec fn outcome_at(program: &FactoredInstructionProgram, i: int) -> SymbolicBool {
    program.instructions@[i].outcome_of()->0
}

/// The symbol resolves to branches in at most `d` steps.
pub open spec fn resolves(program: &FactoredInstructionProgram, symbol: i32, d: int) -> bool
    decreases d,
{
    match source(program, symbol) {
        Source::Derived(i) => d > 0 && forall|k: int|
            0 <= k < outcome_at(program, i).conditions@.len() ==> resolves(
                program,
                #[trigger] outcome_at(program, i).conditions@[k],
                d - 1,
            ),
        _ => true,
    }
}

/// The symbol's value does not depend on itself.
pub open spec fn acyclic(program: &FactoredInstructionProgram, symbol: i32) -> bool {
    exists|d: int| resolves(program, symbol, d)
}

/// One more step of unfolding: derived symbols read `v`.
pub open spec fn unfolded(
    program: &FactoredInstructionProgram,
    b: spec_fn(i32) -> bool,
    v: spec_fn(i32) -> bool,
) -> spec_fn(i32) -> bool {
    |symbol: i32|
        match source(program, symbol) {
            Source::Noise => false,
            Source::Branch => b(symbol),
            Source::Derived(i) => outcome_at(program, i).value(v),
        }
}

/// The symbols' values in the noiseless circuit when the branches come out as
/// `b`, unfolding derived symbols at most `d` times.
pub open spec fn noiseless_run(
    program: &FactoredInstructionProgram,
    b: spec_fn(i32) -> bool,
    d: int,
) -> spec_fn(i32) -> bool
    decreases d,
{
    if d <= 0 {
        unfolded(program, b, |c: i32| false)
    } else {
        unfolded(program, b, noiseless_run(program, b, d - 1))
    }
}

/// The value of a symbol in the noiseless circuit.
pub open spec fn noiseless(
    program: &FactoredInstructionProgram,
    symbol: i32,
    b: spec_fn(i32) -> bool,
    d: int,
) -> bool {
    noiseless_run(program, b, d)(symbol)
}

/// Every symbol of the expression resolves in at most `d` steps.
pub open spec fn expression_resolves(
    program: &FactoredInstructionProgram,
    e: SymbolicBool,
    d: int,
) -> bool {
    forall|k: int|
        0 <= k < e.conditions@.len() ==> resolves(program, #[trigger] e.conditions@[k], d)
}

/// `e` is an XOR over branch symbols that has the value of `symbol` in every
/// noiseless run.
pub open spec fn expands(
    program: &FactoredInstructionProgram,
    symbol: i32,
    e: SymbolicBool,
) -> bool {
    &&& over_branches(program, e)
    &&& acyclic(program, symbol)
    &&& forall|b: spec_fn(i32) -> bool, d: int|
        resolves(program, symbol, d) ==> #[trigger] noiseless(program, symbol, b, d) == e.value(b)
}

/// An expression over branch symbols alone.
pub open spec fn over_branches(program: &FactoredInstructionProgram, e: SymbolicBool) -> bool {
    &&& e.wf()
    &&& forall|c: i32|
        #[trigger] e.conditions@.contains(c) ==> is_drawn(
            program,
            program.instructions@.len() as int,
            c,
        )
}

pub proof fn lemma_resolves_more(program: &FactoredInstructionProgram, symbol: i32, d: int, e: int)
    requires
        resolves(program, symbol, d),
        d <= e,
    ensures
        resolves(program, symbol, e),
    decreases d,
{
    match source(program, symbol) {
        Source::Derived(i) => {
            assert forall|k: int| 0 <= k < outcome_at(program, i).conditions@.len() implies resolves(
                program,
                #[trigger] outcome_at(program, i).conditions@[k],
                e - 1,
            ) by {
                assert(resolves(program, outcome_at(program, i).conditions@[k], d - 1));
                lemma_resolves_more(program, outcome_at(program, i).conditions@[k], d - 1, e - 1);
            }
        },
        _ => {},
    }
}

/// Unfolding further than needed changes nothing.
pub proof fn lemma_noiseless_stable(
    program: &FactoredInstructionProgram,
    symbol: i32,
    b: spec_fn(i32) -> bool,
    d: int,
    e: int,
)
    requires
        resolves(program, symbol, d),
        d <= e,
    ensures
        noiseless(program, symbol, b, d) == noiseless(program, symbol, b, e),
    decreases d,
{
    match source(program, symbol) {
        Source::Derived(i) => {
            let c = outcome_at(program, i).conditions@;
            let f = noiseless_run(program, b, d - 1);
            let g = noiseless_run(program, b, e - 1);
            assert forall|k: int| 0 <= k < c.len() implies f(#[trigger] c[k]) == g(c[k]) by {
                assert(resolves(program, c[k], d - 1));
                lemma_noiseless_stable(program, c[k], b, d - 1, e - 1);
                assert(noiseless(program, c[k], b, d - 1) == noiseless(program, c[k], b, e - 1));
            }
            lemma_xor_of_ext(c, f, g);
        },
        _ => {},
    }
}

// ---------------------------------------------------------------------------
// The symbol index
// ---------------------------------------------------------------------------
#[derive(Clone, Copy, Debug, PartialEq, Eq, Structural)]
enum SymbolSource {
    /// A measurement branch drawn by an instruction: a free variable.
    Branch,
    /// A record condition assigned from this instruction's outcome expression.
    Derived(usize),
}

/// Instruction-level index of what assigns each symbol and each record.
struct ProgramSymbols {
    sources: HashMap<i32, SymbolSource>,
    /// Instruction index that draws each branch symbol.
    branch_instruction: HashMap<i32, usize>,
    /// Instruction index writing each one-based record.
    record_instruction: HashMap<i32, usize>,
    /// Noiseless expansion of a symbol into branch symbols, memoized.
    expansions: HashMap<i32, SymbolicBool>,
}

spec fn source_entry(table: Map<i32, SymbolSource>, symbol: i32) -> Source {
    if !table.contains_key(symbol) {
        Source::Noise
    } else {
        match table[symbol] {
            SymbolSource::Branch => Source::Branch,
            SymbolSource::Derived(i) => Source::Derived(i as int),
        }
    }
}

spec fn sources_match(
    table: Map<i32, SymbolSource>,
    program: &FactoredInstructionProgram,
    n: int,
) -> bool {
    forall|s: i32| #[trigger] source_entry(table, s) == source_below(program, n, s)
}

spec fn branches_match(
    table: Map<i32, usize>,
    program: &FactoredInstructionProgram,
    n: int,
) -> bool {
    &&& forall|s: i32|
        #[trigger] table.contains_key(s) ==> drawn_last(program, n, s, table[s] as int)
    &&& forall|s: i32| is_drawn(program, n, s) ==> #[trigger] table.contains_key(s)
}

spec fn records_match(
    table: Map<i32, usize>,
    program: &FactoredInstructionProgram,
    n: int,
) -> bool {
    &&& forall|r: i32|
        #[trigger] table.contains_key(r) ==> written_last(program, n, r, table[r] as int)
    &&& forall|r: i32, i: int|
        0 <= i < n && (#[trigger] program.instructions@[i]).writes() == Some(r)
            ==> #[trigger] table.contains_key(r)
}

proof fn lemma_derived_first_unique(
    program: &FactoredInstructionProgram,
    n: int,
    s: i32,
    i: int,
    j: int,
)
    requires
        derived_first(program, n, s, i),
        derived_first(program, n, s, j),
    ensures
        i == j,
{
    if i < j {
        assert(program.instructions@[i].derives() != Some(s));
    } else if j < i {
        assert(program.instructions@[j].derives() != Some(s));
    }
}

/// How the source of a symbol changes when one more instruction is seen.
proof fn lemma_source_step(program: &FactoredInstructionProgram, n: int, s: i32)
    requires
        0 <= n < program.instructions@.len(),
    ensures
        source_below(program, n + 1, s) == if program.instructions@[n].drawn() == Some(s) {
            Source::Branch
        } else if source_below(program, n, s) != Source::Noise {
            source_below(program, n, s)
        } else if program.instructions@[n].derives() == Some(s) {
            Source::Derived(n)
        } else {
            Source::Noise
        },
{
    let m = n + 1;
    let ins = program.instructions@[n];
    if ins.drawn() == Some(s) {
        assert(is_drawn(program, m, s));
    } else {
        if is_drawn(program, n, s) {
            let i = choose|i: int|
                0 <= i < n && (#[trigger] program.instructions@[i]).drawn() == Some(s);
            assert(program.instructions@[i].drawn() == Some(s));
            assert(is_drawn(program, m, s));
        } else {
            assert(!is_drawn(program, m, s));
            if exists|i: int| derived_first(program, n, s, i) {
                let i = choose|i: int| derived_first(program, n, s, i);
                assert(derived_first(program, m, s, i));
                let j = choose|j: int| derived_first(program, m, s, j);
                lemma_derived_first_unique(program, m, s, i, j);
            } else if ins.derives() == Some(s) {
                assert forall|k: int| 0 <= k < n implies (#[trigger] program.instructions@[k]).derives()
                    != Some(s) by {
                    if program.instructions@[k].derives() == Some(s) {
                        lemma_first_exists(program, n, s, k);
                    }
                }
                assert(derived_first(program, m, s, n));
                let j = choose|j: int| derived_first(program, m, s, j);
                lemma_derived_first_unique(program, m, s, n, j);
            } else {
                assert forall|i: int| !derived_first(program, m, s, i) by {
                    if derived_first(program, m, s, i) {
                        assert(derived_first(program, n, s, i));
                    }
                }
            }
        }
    }
}

proof fn lemma_first_exists(program: &FactoredInstructionProgram, n: int, s: i32, k: int)
    requires
        0 <= k < n,
        program.instructions@[k].derives() == Some(s),
    ensures
        exists|i: int| derived_first(program, n, s, i),
    decreases k,
{
    if forall|j: int| 0 <= j < k ==> (#[trigger] program.instructions@[j]).derives() != Some(s) {
        assert(derived_first(program, n, s, k));
    } else {
        let j = choose|j: int|
            0 <= j < k && (#[trigger] program.instructions@[j]).derives() == Some(s);
        lemma_first_exists(program, n, s, j);
    }
}

impl ProgramSymbols {
    spec fn wf(&self, program: &FactoredInstructionProgram) -> bool {
        let n = program.instructions@.len() as int;
        &&& program.wf()
        &&& sources_match(self.sources@, program, n)
        &&& branches_match(self.branch_instruction@, program, n)
        &&& records_match(self.record_instruction@, program, n)
        &&& forall|s: i32|
            #[trigger] self.expansions@.contains_key(s) ==> expands(program, s, self.expansions@[s])
    }

    fn new(program: &FactoredInstructionProgram) -> (r: Self)
        requires
            program.wf(),
        ensures
            r.wf(program),
    {
        let mut sources: HashMap<i32, SymbolSource> = HashMap::new();
        let mut branch_instruction: HashMap<i32, usize> = HashMap::new();
        let mut record_instruction: HashMap<i32, usize> = HashMap::new();
        let mut index: usize = 0;
        while index < program.instructions.len()
            invariant
                index <= program.instructions@.len(),
                sources_match(sources@, program, index as int),
                branches_match(branch_instruction@, program, index as int),
                records_match(record_instruction@, program, index as int),
            decreases program.instructions@.len() - index,
        {
            let instruction: &FactoredInstruction = &program.instructions[index];
            let ghost n = index as int;
            let ghost m = n + 1;
            let ghost sources0 = sources@;
            let ghost branches0 = branch_instruction@;
            let ghost records0 = record_instruction@;
            if let Some(branch) = instruction.branch() {
                sources.insert(branch, SymbolSource::Branch);
                branch_instruction.insert(branch, index);
            }
            if let Some(condition) = instruction.record_condition() {
                if !sources.contains_key(&condition) {
                    sources.insert(condition, SymbolSource::Derived(index));
                }
            }
            if let Some(record) = instruction.record() {
                record_instruction.insert(record, index);
            }
            proof {
                assert forall|s: i32| #[trigger] source_entry(sources@, s) == source_below(
                    program,
                    m,
                    s,
                ) by {
                    lemma_source_step(program, n, s);
                    assert(source_entry(sources0, s) == source_below(program, n, s));
                }
                assert forall|s: i32| #[trigger] branch_instruction@.contains_key(s) implies
                    drawn_last(program, m, s, branch_instruction@[s] as int) by {
                    if program.instructions@[n].drawn() != Some(s) {
                        assert(branches0.contains_key(s));
                    }
                }
                assert forall|s: i32| is_drawn(program, m, s) implies
                    #[trigger] branch_instruction@.contains_key(s) by {
                    let i = choose|i: int|
                        0 <= i < m && (#[trigger] program.instructions@[i]).drawn() == Some(s);
                    if i < n {
                        assert(is_drawn(program, n, s));
                        assert(branches0.contains_key(s));
                    }
                }
                assert forall|r: i32| #[trigger] record_instruction@.contains_key(r) implies
                    written_last(program, m, r, record_instruction@[r] as int) by {
                    if program.instructions@[n].writes() != Some(r) {
                        assert(records0.contains_key(r));
                    }
                }
                assert forall|r: i32, i: int|
                    0 <= i < m && (#[trigger] program.instructions@[i]).writes() == Some(
                        r,
                    ) implies #[trigger] record_instruction@.contains_key(r) by {
                    if i < n {
                        assert(records0.contains_key(r));
                    }
                }
            }
            index += 1;
        }
        ProgramSymbols { sources, branch_instruction, record_instruction, expansions: HashMap::new() }
    }
}

// ---------------------------------------------------------------------------
// Expansion into branches
// ---------------------------------------------------------------------------
/// Resolving `s` takes at least one step more than resolving `t`.
spec fn below(program: &FactoredInstructionProgram, s: i32, t: i32) -> bool {
    forall|d: int| #[trigger] resolves(program, s, d) ==> d > 0 && resolves(program, t, d - 1)
}

proof fn lemma_below_chain(program: &FactoredInstructionProgram, s: i32, t: i32, u: i32)
    requires
        below(program, s, t),
        below(program, t, u),
    ensures
        below(program, s, u),
{
    assert forall|d: int| #[trigger] resolves(program, s, d) implies d > 0 && resolves(
        program,
        u,
        d - 1,
    ) by {
        assert(resolves(program, t, d - 1));
        assert(resolves(program, u, d - 2));
        lemma_resolves_more(program, u, d - 2, d - 1);
    }
}

proof fn lemma_condition_below(program: &FactoredInstructionProgram, s: i32, i: int, k: int)
    requires
        source(program, s) == Source::Derived(i),
        0 <= k < outcome_at(program, i).conditions@.len(),
    ensures
        below(program, s, outcome_at(program, i).conditions@[k]),
{
    assert forall|d: int| #[trigger] resolves(program, s, d) implies d > 0 && resolves(
        program,
        outcome_at(program, i).conditions@[k],
        d - 1,
    ) by {}
}

proof fn lemma_cycle(program: &FactoredInstructionProgram, s: i32, d: int)
    requires
        below(program, s, s),
    ensures
        !resolves(program, s, d),
    decreases d,
{
    if resolves(program, s, d) {
        assert(resolves(program, s, d - 1));
        lemma_cycle(program, s, d - 1);
    }
}

/// A symbol above an unresolvable one is unresolvable.
proof fn lemma_cycle_above(program: &FactoredInstructionProgram, s: i32, t: i32)
    requires
        s == t || below(program, s, t),
        below(program, t, t),
    ensures
        !acyclic(program, s),
{
    assert forall|d: int| !resolves(program, s, d) by {
        lemma_cycle(program, t, d);
        lemma_cycle(program, t, d - 1);
    }
}

/// One depth resolves every symbol of an acyclic list.
proof fn lemma_common_depth(program: &FactoredInstructionProgram, c: Seq<i32>) -> (d: int)
    requires
        forall|k: int| 0 <= k < c.len() ==> acyclic(program, #[trigger] c[k]),
    ensures
        d >= 0,
        forall|k: int| 0 <= k < c.len() ==> resolves(program, #[trigger] c[k], d),
    decreases c.len(),
{
    if c.len() == 0 {
        0
    } else {
        let rest = c.drop_last();
        assert forall|k: int| 0 <= k < rest.len() implies acyclic(program, #[trigger] rest[k]) by {
            assert(rest[k] == c[k]);
        }
        let d0 = lemma_common_depth(program, rest);
        assert(acyclic(program, c[c.len() - 1]));
        let d1 = choose|d: int| resolves(program, c.last(), d);
        let d = if d0 < d1 {
            d1
        } else {
            d0
        };
        lemma_resolves_more(program, c.last(), d1, d);
        assert forall|k: int| 0 <= k < c.len() implies resolves(program, #[trigger] c[k], d) by {
            if k < rest.len() {
                assert(rest[k] == c[k]);
                lemma_resolves_more(program, c[k], d0, d);
            }
        }
        d
    }
}

/// The value that the memoized expansions give a symbol.
spec fn expanded(table: Map<i32, SymbolicBool>, b: spec_fn(i32) -> bool) -> spec_fn(i32) -> bool {
    |c: i32| table[c].value(b)
}

/// The expansions of a derived symbol's terms give its own.
proof fn lemma_expands_outcome(
    program: &FactoredInstructionProgram,
    s: i32,
    i: int,
    table: Map<i32, SymbolicBool>,
    e: SymbolicBool,
)
    requires
        source(program, s) == Source::Derived(i),
        forall|k: int|
            0 <= k < outcome_at(program, i).conditions@.len() ==> expands(
                program,
                #[trigger] outcome_at(program, i).conditions@[k],
                table[outcome_at(program, i).conditions@[k]],
            ),
        over_branches(program, e),
        forall|b: spec_fn(i32) -> bool|
            #[trigger] e.value(b) == outcome_at(program, i).value(expanded(table, b)),
    ensures
        expands(program, s, e),
{
    let c = outcome_at(program, i).conditions@;
    assert forall|k: int| 0 <= k < c.len() implies acyclic(program, #[trigger] c[k]) by {
        assert(expands(program, outcome_at(program, i).conditions@[k], table[c[k]]));
    }
    let d0 = lemma_common_depth(program, c);
    assert(resolves(program, s, d0 + 1));
    assert forall|b: spec_fn(i32) -> bool, d: int| resolves(program, s, d) implies
        #[trigger] noiseless(program, s, b, d) == e.value(b) by {
        let f = noiseless_run(program, b, d - 1);
        let g = expanded(table, b);
        assert forall|k: int| 0 <= k < c.len() implies f(#[trigger] c[k]) == g(c[k]) by {
            assert(expands(program, outcome_at(program, i).conditions@[k], table[c[k]]));
            lemma_condition_below(program, s, i, k);
            assert(below(program, s, c[k]));
            assert(resolves(program, c[k], d - 1));
            assert(noiseless(program, c[k], b, d - 1) == table[c[k]].value(b));
        }
        lemma_xor_of_ext(c, f, g);
    }
}

proof fn lemma_all_symbols_finite() -> (u: Set<i32>)
    ensures
        u.finite(),
        forall|x: i32| u.contains(x),
{
    let ints = vstd::set_lib::set_int_range(i32::MIN as int, i32::MAX as int + 1);
    vstd::set_lib::lemma_int_range(i32::MIN as int, i32::MAX as int + 1);
    let u = ints.map(|i: int| i as i32);
    ints.lemma_map_finite(|i: int| i as i32);
    assert forall|x: i32| u.contains(x) by {
        assert(ints.contains(x as int));
        assert((x as int) as i32 == x);
    }
    u
}

/// Symbols without an expansion.
spec fn unexpanded(u: Set<i32>, table: Map<i32, SymbolicBool>) -> Set<i32> {
    u.difference(table.dom())
}

proof fn lemma_subset_shrinks(a: Set<i32>, b: Set<i32>, x: i32)
    requires
        a.finite(),
        b.subset_of(a),
        a.contains(x),
        !b.contains(x),
    ensures
        b.finite(),
        b.len() < a.len(),
{
    vstd::set_lib::lemma_len_subset(b, a.remove(x));
    assert(b.subset_of(a.remove(x)));
    assert(a.remove(x).len() == a.len() - 1);
    vstd::set_lib::lemma_len_subset(b, a);
}

/// The positions on the stack whose terms are being expanded.
spec fn opened_wf(
    program: &FactoredInstructionProgram,
    stack: Seq<i32>,
    opened: Seq<int>,
    in_progress: Set<i32>,
    table: Map<i32, SymbolicBool>,
) -> bool {
    &&& forall|j: int| 0 <= j < opened.len() ==> 0 <= #[trigger] opened[j] < stack.len()
    &&& forall|j: int, k: int| 0 <= j < k < opened.len() ==> opened[j] < opened[k]
    &&& forall|j: int|
        0 <= j < opened.len() ==> #[trigger] in_progress.contains(stack[opened[j]])
    &&& forall|x: i32| #[trigger]
        in_progress.contains(x) ==> exists|j: int|
            0 <= j < opened.len() && stack[#[trigger] opened[j]] == x
    &&& forall|j: int, q: int|
        0 <= j < opened.len() && opened[j] < q < stack.len() ==> stack[#[trigger] opened[j]]
            != #[trigger] stack[q] && below(program, stack[opened[j]], stack[q])
    &&& forall|j: int|
        0 <= j < opened.len() ==> !table.contains_key(stack[#[trigger] opened[j]])
    &&& forall|j: int|
        0 <= j < opened.len() ==> waits_above(
            program,
            stack,
            #[trigger] opened[j],
            table,
        )
}

/// Every term of the derived symbol at `p` is expanded or stands above it.
spec fn waits_above(
    program: &FactoredInstructionProgram,
    stack: Seq<i32>,
    p: int,
    table: Map<i32, SymbolicBool>,
) -> bool {
    match source(program, stack[p]) {
        Source::Derived(i) => forall|k: int|
            0 <= k < outcome_at(program, i).conditions@.len() ==> {
                let c = #[trigger] outcome_at(program, i).conditions@[k];
                table.contains_key(c) || exists|q: int| p < q < stack.len() && stack[q] == c
            },
        _ => true,
    }
}

/// A derived symbol has an expression in form.
proof fn lemma_derived_outcome(program: &FactoredInstructionProgram, s: i32, i: int)
    requires
        program.wf(),
        source(program, s) == Source::Derived(i),
    ensures
        0 <= i < program.instructions@.len(),
        program.instructions@[i].outcome_of() is Some,
        outcome_at(program, i).wf(),
{
    let n = program.instructions@.len() as int;
    assert(derived_first(program, n, s, i));
    assert(program.instructions@[i].wf());
}

/// Dropping an expanded entry that was not opened.
proof fn lemma_pop_unopened(
    program: &FactoredInstructionProgram,
    stack: Seq<i32>,
    opened: Seq<int>,
    in_progress: Set<i32>,
    table: Map<i32, SymbolicBool>,
)
    requires
        opened_wf(program, stack, opened, in_progress, table),
        stack.len() > 0,
        !in_progress.contains(stack.last()),
        table.contains_key(stack.last()),
    ensures
        opened_wf(program, stack.drop_last(), opened, in_progress, table),
{
    let rest = stack.drop_last();
    let last = stack.len() - 1;
    assert forall|j: int| 0 <= j < opened.len() implies 0 <= #[trigger] opened[j] < rest.len() by {
        assert(in_progress.contains(stack[opened[j]]));
    }
    assert forall|x: i32| #[trigger] in_progress.contains(x) implies exists|j: int|
        0 <= j < opened.len() && rest[#[trigger] opened[j]] == x by {
        let j = choose|j: int| 0 <= j < opened.len() && stack[#[trigger] opened[j]] == x;
        assert(rest[opened[j]] == x);
    }
    assert forall|j: int| 0 <= j < opened.len() implies waits_above(
        program,
        rest,
        #[trigger] opened[j],
        table,
    ) by {
        lemma_waits_pop(program, stack, opened[j], table, table);
    }
}

/// An entry that waits for nothing but what is above it still does so once the
/// top entry is expanded and dropped.
proof fn lemma_waits_pop(
    program: &FactoredInstructionProgram,
    stack: Seq<i32>,
    p: int,
    table0: Map<i32, SymbolicBool>,
    table1: Map<i32, SymbolicBool>,
)
    requires
        0 <= p < stack.len() - 1,
        waits_above(program, stack, p, table0),
        table1.contains_key(stack.last()),
        forall|c: i32| #[trigger] table0.contains_key(c) ==> table1.contains_key(c),
    ensures
        waits_above(program, stack.drop_last(), p, table1),
{
    let rest = stack.drop_last();
    match source(program, rest[p]) {
        Source::Derived(i) => {
            assert forall|k: int| 0 <= k < outcome_at(program, i).conditions@.len() implies {
                let c = #[trigger] outcome_at(program, i).conditions@[k];
                table1.contains_key(c) || exists|q: int| p < q < rest.len() && rest[q] == c
            } by {
                let c = outcome_at(program, i).conditions@[k];
                if !table1.contains_key(c) {
                    assert(!table0.contains_key(c));
                    let q = choose|q: int| p < q < stack.len() && stack[q] == c;
                    assert(rest[q] == c);
                }
            }
        },
        _ => {},
    }
}

/// Dropping the top entry after expanding it.
proof fn lemma_pop_expanded(
    program: &FactoredInstructionProgram,
    stack: Seq<i32>,
    opened: Seq<int>,
    in_progress: Set<i32>,
    table0: Map<i32, SymbolicBool>,
    table1: Map<i32, SymbolicBool>,
)
    requires
        opened_wf(program, stack, opened, in_progress, table0),
        stack.len() > 0,
        in_progress.contains(stack.last()) ==> opened.len() > 0 && opened.last() == stack.len() - 1,
        table1.contains_key(stack.last()),
        forall|c: i32| #[trigger] table0.contains_key(c) ==> table1.contains_key(c),
        forall|c: i32|
            #[trigger] table1.contains_key(c) && c != stack.last() ==> table0.contains_key(c),
    ensures
        opened_wf(
            program,
            stack.drop_last(),
            if in_progress.contains(stack.last()) {
                opened.drop_last()
            } else {
                opened
            },
            in_progress.remove(stack.last()),
            table1,
        ),
{
    let rest = stack.drop_last();
    let last = stack.len() - 1;
    let top = stack.last();
    let fewer = if in_progress.contains(top) {
        opened.drop_last()
    } else {
        opened
    };
    let left = in_progress.remove(top);
    assert forall|j: int| 0 <= j < fewer.len() implies 0 <= #[trigger] fewer[j] < rest.len() && fewer[j]
        == opened[j] && stack[opened[j]] != top by {
        assert(in_progress.contains(stack[opened[j]]));
        if in_progress.contains(top) {
            assert(opened[j] < opened[opened.len() - 1]);
        }
        assert(opened[j] < last);
        assert(stack[opened[j]] != stack[last]);
    }
    assert forall|j: int| 0 <= j < fewer.len() implies #[trigger] left.contains(rest[fewer[j]]) by {
        assert(in_progress.contains(stack[opened[j]]));
    }
    assert forall|x: i32| #[trigger] left.contains(x) implies exists|j: int|
        0 <= j < fewer.len() && rest[#[trigger] fewer[j]] == x by {
        assert(in_progress.contains(x));
        let j = choose|j: int| 0 <= j < opened.len() && stack[#[trigger] opened[j]] == x;
        assert(j < fewer.len());
        assert(rest[fewer[j]] == x);
    }
    assert forall|j: int, q: int|
        0 <= j < fewer.len() && fewer[j] < q < rest.len() implies rest[#[trigger] fewer[j]]
        != #[trigger] rest[q] && below(program, rest[fewer[j]], rest[q]) by {
        assert(stack[opened[j]] != stack[q]);
    }
    assert forall|j: int| 0 <= j < fewer.len() implies !table1.contains_key(
        rest[#[trigger] fewer[j]],
    ) by {
        assert(!table0.contains_key(stack[opened[j]]));
    }
    assert forall|j: int| 0 <= j < fewer.len() implies waits_above(
        program,
        rest,
        #[trigger] fewer[j],
        table1,
    ) by {
        assert(waits_above(program, stack, opened[j], table0));
        lemma_waits_pop(program, stack, opened[j], table0, table1);
    }
}

/// Opening the top entry and putting its terms above it.
proof fn lemma_opened(
    program: &FactoredInstructionProgram,
    stack0: Seq<i32>,
    stack1: Seq<i32>,
    opened: Seq<int>,
    in_progress: Set<i32>,
    table: Map<i32, SymbolicBool>,
    i: int,
)
    requires
        opened_wf(program, stack0, opened, in_progress, table),
        stack0.len() > 0,
        !in_progress.contains(stack0.last()),
        !table.contains_key(stack0.last()),
        source(program, stack0.last()) == Source::Derived(i),
        stack1.len() >= stack0.len(),
        stack1.take(stack0.len() as int) =~= stack0,
        forall|q: int|
            stack0.len() <= q < stack1.len() ==> {
                &&& #[trigger] stack1[q] != stack0.last()
                &&& !in_progress.contains(stack1[q])
                &&& below(program, stack0.last(), stack1[q])
            },
        forall|j: int|
            0 <= j < outcome_at(program, i).conditions@.len() ==> table.contains_key(
                #[trigger] outcome_at(program, i).conditions@[j],
            ) || exists|q: int|
                stack0.len() <= q < stack1.len() && stack1[q] == outcome_at(
                    program,
                    i,
                ).conditions@[j],
    ensures
        opened_wf(
            program,
            stack1,
            opened.push(stack0.len() - 1),
            in_progress.insert(stack0.last()),
            table,
        ),
{
    let last = stack0.len() - 1;
    let top = stack0.last();
    let more = opened.push(last);
    let grown = in_progress.insert(top);
    assert forall|q: int| 0 <= q < stack0.len() implies stack1[q] == stack0[q] by {
        assert(stack1.take(stack0.len() as int)[q] == stack0[q]);
    }
    assert forall|j: int| 0 <= j < opened.len() implies #[trigger] opened[j] < last by {
        assert(in_progress.contains(stack0[opened[j]]));
    }
    assert forall|j: int| 0 <= j < more.len() implies #[trigger] grown.contains(stack1[more[j]]) by {
        if j < opened.len() {
            assert(in_progress.contains(stack0[opened[j]]));
        }
    }
    assert forall|x: i32| #[trigger] grown.contains(x) implies exists|j: int|
        0 <= j < more.len() && stack1[#[trigger] more[j]] == x by {
        if x == top {
            assert(stack1[more[opened.len() as int]] == x);
        } else {
            assert(in_progress.contains(x));
            let j = choose|j: int| 0 <= j < opened.len() && stack0[#[trigger] opened[j]] == x;
            assert(stack1[more[j]] == x);
        }
    }
    assert forall|j: int, q: int|
        0 <= j < more.len() && more[j] < q < stack1.len() implies stack1[#[trigger] more[j]]
        != #[trigger] stack1[q] && below(program, stack1[more[j]], stack1[q]) by {
        if q >= stack0.len() {
            assert(below(program, top, stack1[q]));
            if j < opened.len() {
                assert(stack0[opened[j]] != stack0[last]);
                assert(below(program, stack0[opened[j]], stack0[last]));
                lemma_below_chain(program, stack0[opened[j]], top, stack1[q]);
                assert(in_progress.contains(stack0[opened[j]]));
            }
        } else {
            assert(j < opened.len());
            assert(stack0[opened[j]] != stack0[q]);
        }
    }
    assert forall|j: int| 0 <= j < more.len() implies !table.contains_key(
        stack1[#[trigger] more[j]],
    ) by {
        if j < opened.len() {
            assert(!table.contains_key(stack0[opened[j]]));
        }
    }
    assert forall|j: int| 0 <= j < more.len() implies waits_above(
        program,
        stack1,
        #[trigger] more[j],
        table,
    ) by {
        let p = more[j];
        match source(program, stack1[p]) {
            Source::Derived(m) => {
                assert forall|k: int| 0 <= k < outcome_at(program, m).conditions@.len() implies {
                    let c = #[trigger] outcome_at(program, m).conditions@[k];
                    table.contains_key(c) || exists|q: int| p < q < stack1.len() && stack1[q] == c
                } by {
                    let c = outcome_at(program, m).conditions@[k];
                    if !table.contains_key(c) {
                        if j < opened.len() {
                            assert(waits_above(program, stack0, opened[j], table));
                            let q = choose|q: int| p < q < stack0.len() && stack0[q] == c;
                            assert(stack1[q] == c);
                        } else {
                            assert(m == i);
                            let q = choose|q: int|
                                stack0.len() <= q < stack1.len() && stack1[q] == c;
                            assert(stack1[q] == c && p < q);
                        }
                    }
                }
            },
            _ => {},
        }
    }
}

impl ProgramSymbols {
    /// What stays the same while expansions are added.
    spec fn grows(&self, old: &Self) -> bool {
        &&& self.sources@ == old.sources@
        &&& self.branch_instruction@ == old.branch_instruction@
        &&& self.record_instruction@ == old.record_instruction@
        &&& forall|s: i32|
            #[trigger] old.expansions@.contains_key(s) ==> self.expansions@.contains_key(s)
    }

    /// XORs the expansions of an expression's terms.
    fn combine(&self, program: &FactoredInstructionProgram, expr: &SymbolicBool) -> (r: SymbolicBool)
        requires
            self.wf(program),
            forall|k: int|
                0 <= k < expr.conditions@.len() ==> self.expansions@.contains_key(
                    #[trigger] expr.conditions@[k],
                ),
        ensures
            over_branches(program, r),
            forall|b: spec_fn(i32) -> bool|
                #[trigger] r.value(b) == expr.value(expanded(self.expansions@, b)),
    {
        let mut out: SymbolicBool = SymbolicBool { constant: expr.constant, conditions: Vec::new() };
        let mut k: usize = 0;
        assert(expr.conditions@.take(0) =~= Seq::<i32>::empty());
        while k < expr.conditions.len()
            invariant
                k <= expr.conditions@.len(),
                self.wf(program),
                forall|k: int|
                    0 <= k < expr.conditions@.len() ==> self.expansions@.contains_key(
                        #[trigger] expr.conditions@[k],
                    ),
                over_branches(program, out),
                forall|b: spec_fn(i32) -> bool|
                    #[trigger] out.value(b) == (expr.constant != xor_of(
                        expr.conditions@.take(k as int),
                        expanded(self.expansions@, b),
                    )),
            decreases expr.conditions@.len() - k,
        {
            let condition: i32 = expr.conditions[k];
            assert(self.expansions@.contains_key(expr.conditions@[k as int]));
            match self.expansions.get(&condition) {
                Some(expansion) => {
                    let ghost before = out;
                    assert(expands(program, condition, *expansion));
                    out = xor_bool(&out, expansion);
                    proof {
                        let taken = expr.conditions@.take(k + 1);
                        assert(taken.drop_last() =~= expr.conditions@.take(k as int));
                        assert(taken.last() == condition);
                        assert forall|b: spec_fn(i32) -> bool| #[trigger] out.value(b) == (
                        expr.constant != xor_of(taken, expanded(self.expansions@, b))) by {
                            assert(before.value(b) == (expr.constant != xor_of(
                                expr.conditions@.take(k as int),
                                expanded(self.expansions@, b),
                            )));
                        }
                        assert forall|c: i32| #[trigger] out.conditions@.contains(c) implies is_drawn(
                            program,
                            program.instructions@.len() as int,
                            c,
                        ) by {
                            assert(before.conditions@.contains(c) || expansion.conditions@.contains(
                                c,
                            ));
                        }
                    }
                },
                None => {
                    assert(false);
                },
            }
            k += 1;
        }
        assert(expr.conditions@.take(k as int) =~= expr.conditions@);
        out
    }

    /// Expands one symbol. Iterative rather than recursive: a record condition
    /// can depend on an arbitrarily long chain of earlier ones.
    #[verifier::rlimit(80)]
    #[verifier::spinoff_prover]
    fn expand_symbol(&mut self, program: &FactoredInstructionProgram, symbol: i32) -> (r: Result<()>)
        requires
            old(self).wf(program),
            symbol > 0,
        ensures
            final(self).wf(program),
            final(self).grows(old(self)),
            match r {
                Ok(_) => final(self).expansions@.contains_key(symbol),
                Err(e) => !acyclic(program, symbol) && e@ == "measurement record expression is cyclic"@,
            },
    {
        let mut stack: Vec<i32> = Vec::new();
        stack.push(symbol);
        let mut in_progress: HashSet<i32> = HashSet::new();
        let ghost mut opened: Seq<int> = Seq::empty();
        let ghost u = lemma_all_symbols_finite();
        while stack.len() > 0
            invariant
                self.wf(program),
                self.grows(old(self)),
                u.finite(),
                forall|x: i32| u.contains(x),
                opened_wf(program, stack@, opened, in_progress@, self.expansions@),
                forall|q: int| 0 <= q < stack@.len() ==> #[trigger] stack@[q] > 0,
                forall|q: int|
                    0 < q < stack@.len() ==> below(program, symbol, #[trigger] stack@[q]),
                stack@.len() > 0 ==> stack@[0] == symbol,
                stack@.len() == 0 ==> self.expansions@.contains_key(symbol),
            decreases
                    unexpanded(u, self.expansions@).len(),
                    unexpanded(u, self.expansions@).difference(in_progress@).len(),
                    stack@.len(),
        {
            let last: usize = stack.len() - 1;
            let top: i32 = stack[last];
            let ghost table0 = self.expansions@;
            let ghost progress0 = in_progress@;
            let ghost stack0 = stack@;
            let ghost opened0 = opened;
            let ghost open0 = unexpanded(u, table0);
            proof {
                assert(open0.finite());
                assert(open0.difference(progress0).finite());
                // Only the top position itself can hold an opened copy of `top`.
                if progress0.contains(top) {
                    let j = choose|j: int|
                        0 <= j < opened.len() && stack@[#[trigger] opened[j]] == top;
                    assert(opened[j] == last) by {
                        if opened[j] < last {
                            assert(stack@[opened[j]] != stack@[last as int]);
                        }
                    }
                    assert(j == opened.len() - 1) by {
                        if j < opened.len() - 1 {
                            assert(opened[j] < opened[opened.len() - 1]);
                        }
                    }
                }
            }
            if self.expansions.contains_key(&top) {
                in_progress.remove(&top);
                stack.pop();
                proof {
                    assert(!progress0.contains(top));
                    assert(in_progress@ =~= progress0);
                    lemma_pop_unopened(program, stack0, opened, progress0, table0);
                    assert(stack@ =~= stack0.drop_last());
                }
                continue ;
            }
            let found: Option<SymbolSource> = match self.sources.get(&top) {
                Some(s) => Some(*s),
                None => None,
            };
            assert(source_entry(self.sources@, top) == source(program, top));
            match found {
                None => {
                    // Exogenous noise is zero in the noiseless circuit.
                    let zero: SymbolicBool = SymbolicBool { constant: false, conditions: Vec::new() };
                    proof {
                        assert(resolves(program, top, 0));
                        assert(expands(program, top, zero));
                    }
                    self.expansions.insert(top, zero);
                },
                Some(SymbolSource::Branch) => {
                    let one: SymbolicBool = symbolic_bool(top);
                    proof {
                        assert(resolves(program, top, 0));
                        assert forall|b: spec_fn(i32) -> bool| #[trigger] one.value(b) == b(top) by {
                            assert(one.conditions@.drop_last() =~= Seq::<i32>::empty());
                            assert(xor_of(one.conditions@.drop_last(), b) == false);
                        }
                        assert forall|c: i32| one.conditions@.contains(c) implies c == top by {}
                        assert(expands(program, top, one));
                    }
                    self.expansions.insert(top, one);
                },
                Some(SymbolSource::Derived(instruction)) => {
                    let ghost i = instruction as int;
                    proof {
                        lemma_derived_outcome(program, top, i);
                        if !progress0.contains(top) {
                            opened = opened.push(last as int);
                        }
                    }
                    in_progress.insert(top);
                    let outcome: &SymbolicBool = match program.instructions[instruction].outcome() {
                        Some(outcome) => outcome,
                        None => {
                            return Err(TicitError::new("record condition has no outcome expression"));
                        },
                    };
                    proof {
                        assert(*outcome == outcome_at(program, i));
                        assert forall|x: i32| #[trigger] progress0.contains(x) implies x == top || below(
                            program,
                            x,
                            top,
                        ) by {
                            let m = choose|m: int|
                                0 <= m < opened0.len() && stack0[#[trigger] opened0[m]] == x;
                            if opened0[m] < last {
                                assert(stack0[opened0[m]] != stack0[last as int]);
                            }
                        }
                    }
                    let mut k: usize = 0;
                    while k < outcome.conditions.len()
                        invariant
                            k <= outcome.conditions@.len(),
                            outcome.wf(),
                            *outcome == outcome_at(program, i),
                            source(program, top) == Source::Derived(i),
                            last < stack0.len(),
                            stack0[last as int] == top,
                            last == stack0.len() - 1,
                            self.expansions@ == table0,
                            stack@.len() >= stack0.len(),
                            stack@.take(stack0.len() as int) =~= stack0,
                            forall|q: int|
                                stack0.len() <= q < stack@.len() ==> {
                                    &&& (#[trigger] stack@[q]) > 0
                                    &&& !in_progress@.contains(stack@[q])
                                    &&& below(program, top, stack@[q])
                                },
                            forall|j: int|
                                0 <= j < k ==> table0.contains_key(
                                    #[trigger] outcome.conditions@[j],
                                ) || exists|q: int|
                                    stack0.len() <= q < stack@.len() && stack@[q]
                                        == outcome.conditions@[j],
                            in_progress@ == progress0.insert(top),
                            // Every opened symbol is the top one or above it.
                            forall|x: i32|
                                #[trigger] progress0.contains(x) ==> x == top || below(
                                    program,
                                    x,
                                    top,
                                ),
                            top == symbol || below(program, symbol, top),
                            self.wf(program),
                            self.grows(old(self)),
                            stack0.len() < stack@.len() ==> exists|j: int|
                                0 <= j < k && !table0.contains_key(#[trigger] outcome.conditions@[j]),
                        decreases outcome.conditions@.len() - k,
                    {
                        let condition: i32 = outcome.conditions[k];
                        proof {
                            lemma_condition_below(program, top, i, k as int);
                        }
                        if !self.expansions.contains_key(&condition) {
                            if in_progress.contains(&condition) {
                                proof {
                                    if condition != top {
                                        assert(progress0.contains(condition));
                                        lemma_below_chain(program, top, condition, top);
                                    }
                                    lemma_cycle_above(program, symbol, top);
                                }
                                return Err(TicitError::new("measurement record expression is cyclic"));
                            }
                            let ghost pushed = stack@;
                            stack.push(condition);
                            proof {
                                assert(stack@.take(stack0.len() as int) =~= stack0);
                                assert forall|j: int| 0 <= j < k + 1 implies table0.contains_key(
                                    #[trigger] outcome.conditions@[j],
                                ) || exists|q: int|
                                    stack0.len() <= q < stack@.len() && stack@[q]
                                        == outcome.conditions@[j] by {
                                    if j == k {
                                        assert(stack@[pushed.len() as int]
                                            == outcome.conditions@[j]);
                                    } else if !table0.contains_key(outcome.conditions@[j]) {
                                        let q = choose|q: int|
                                            stack0.len() <= q < pushed.len() && pushed[q]
                                                == outcome.conditions@[j];
                                        assert(stack@[q] == outcome.conditions@[j]);
                                    }
                                }
                            }
                        }
                        k += 1;
                    }
                    if stack.len() > last + 1 {
                        proof {
                            // `top` was not open yet: its terms would all be expanded.
                            if progress0.contains(top) {
                                let m = choose|m: int|
                                    0 <= m < opened0.len() && stack0[#[trigger] opened0[m]] == top;
                                assert(waits_above(program, stack0, opened0[m], table0));
                                let j = choose|j: int|
                                    0 <= j < outcome.conditions@.len() && !table0.contains_key(
                                        #[trigger] outcome.conditions@[j],
                                    );
                                assert(!table0.contains_key(outcome_at(program, i).conditions@[j]));
                            }
                            assert forall|q: int| stack0.len() <= q < stack@.len() implies
                                #[trigger] stack@[q] != stack0.last() && !progress0.contains(stack@[q]) by {}
                            lemma_opened(program, stack0, stack@, opened0, progress0, table0, i);
                            assert(opened =~= opened0.push(last as int));
                            assert forall|q: int| 0 < q < stack@.len() implies below(
                                program,
                                symbol,
                                #[trigger] stack@[q],
                            ) by {
                                if q >= stack0.len() {
                                    assert(below(program, top, stack@[q]));
                                    if last > 0 {
                                        assert(below(program, symbol, stack0[last as int]));
                                        lemma_below_chain(program, symbol, top, stack@[q]);
                                    }
                                } else {
                                    assert(stack@[q] == stack0[q]);
                                }
                            }
                            assert(stack@[0] == stack0[0]);
                            assert forall|q: int| 0 <= q < stack@.len() implies #[trigger] stack@[q] > 0 by {
                                if q < stack0.len() {
                                    assert(stack@[q] == stack0[q]);
                                }
                            }
                            lemma_subset_shrinks(
                                open0.difference(progress0),
                                open0.difference(in_progress@),
                                top,
                            );
                        }
                        continue ;
                    }
                    let value: SymbolicBool = self.combine(program, outcome);
                    proof {
                        assert forall|k: int| 0 <= k < outcome_at(program, i).conditions@.len() implies
                            expands(
                            program,
                            #[trigger] outcome_at(program, i).conditions@[k],
                            self.expansions@[outcome_at(program, i).conditions@[k]],
                        ) by {
                            assert(table0.contains_key(outcome.conditions@[k]));
                        }
                        lemma_expands_outcome(program, top, i, self.expansions@, value);
                    }
                    self.expansions.insert(top, value);
                },
            }
            in_progress.remove(&top);
            stack.pop();
            proof {
                assert(stack@ =~= stack0.drop_last());
                assert(in_progress@ =~= progress0.remove(top));
                opened = if progress0.contains(top) {
                    opened0.drop_last()
                } else {
                    opened0
                };
                lemma_pop_expanded(
                    program,
                    stack0,
                    opened0,
                    progress0,
                    table0,
                    self.expansions@,
                );
                lemma_subset_shrinks(open0, unexpanded(u, self.expansions@), top);
            }
        }
        Ok(())
    }
}

// ---------------------------------------------------------------------------
// Records and constraints
// ---------------------------------------------------------------------------
/// The number a zero-based record goes by.
pub open spec fn one_based_record(record: int) -> i32 {
    (record + 1) as i32
}

/// The instruction that writes a zero-based record last.
pub open spec fn writer(program: &FactoredInstructionProgram, record: int) -> int {
    choose|i: int|
        written_last(program, program.instructions@.len() as int, one_based_record(record), i)
}

/// Some instruction writes the record.
pub open spec fn is_written(program: &FactoredInstructionProgram, record: int) -> bool {
    &&& record < i32::MAX
    &&& exists|i: int|
        0 <= i < program.instructions@.len() && (#[trigger] program.instructions@[i]).writes()
            == Some(one_based_record(record))
}

/// The record's value is determined by the branches.
pub open spec fn is_determined(program: &FactoredInstructionProgram, record: int) -> bool {
    exists|d: int| expression_resolves(program, outcome_at(program, writer(program, record)), d)
}

/// The record's value in the noiseless circuit when the branches come out as `b`.
pub open spec fn record_value(
    program: &FactoredInstructionProgram,
    record: int,
    b: spec_fn(i32) -> bool,
) -> bool {
    let e = outcome_at(program, writer(program, record));
    let d = choose|d: int| expression_resolves(program, e, d);
    e.value(noiseless_run(program, b, d))
}

/// The XOR of the records' noiseless values.
pub open spec fn records_value(
    program: &FactoredInstructionProgram,
    records: Seq<usize>,
    b: spec_fn(i32) -> bool,
) -> bool
    decreases records.len(),
{
    if records.len() == 0 {
        false
    } else {
        records_value(program, records.drop_last(), b) != record_value(
            program,
            records.last() as int,
            b,
        )
    }
}

/// The constraint holds in the noiseless run with these branches.
pub open spec fn satisfied(
    program: &FactoredInstructionProgram,
    constraint: MeasurementParity,
    b: spec_fn(i32) -> bool,
) -> bool {
    records_value(program, constraint.records@, b) == constraint.value
}

/// The first `n` constraints hold.
pub open spec fn all_satisfied(
    program: &FactoredInstructionProgram,
    constraints: Seq<MeasurementParity>,
    n: int,
    b: spec_fn(i32) -> bool,
) -> bool {
    forall|i: int| 0 <= i < n ==> satisfied(program, #[trigger] constraints[i], b)
}

/// Why a record cannot be constrained, if it cannot.
pub open spec fn record_refusal(program: &FactoredInstructionProgram, record: int) -> Option<Seq<char>> {
    if record >= i32::MAX {
        Some("pinned measurement record index is out of range"@)
    } else if !is_written(program, record) {
        Some(
            "pinned measurement record "@ + decimal(record as nat)
                + " is not written by this circuit"@,
        )
    } else if !is_determined(program, record) {
        Some("measurement record expression is cyclic"@)
    } else {
        None
    }
}

/// Every record of the constraint has a noiseless value.
pub open spec fn constrainable(
    program: &FactoredInstructionProgram,
    constraint: MeasurementParity,
) -> bool {
    forall|j: int|
        0 <= j < constraint.records@.len() ==> record_refusal(
            program,
            #[trigger] constraint.records@[j] as int,
        ) is None
}

/// The first record of the constraint that is refused, with its text.
pub open spec fn refuses_record(
    program: &FactoredInstructionProgram,
    constraint: MeasurementParity,
    text: Seq<char>,
) -> bool {
    exists|j: int|
        0 <= j < constraint.records@.len() && record_refusal(
            program,
            #[trigger] constraint.records@[j] as int,
        ) == Some(text) && forall|k: int|
            0 <= k < j ==> record_refusal(program, #[trigger] constraint.records@[k] as int) is None
}

/// A list of indices as `[a, b, c]`.
pub open spec fn list_text(list: Seq<usize>) -> Seq<char> {
    "["@ + items_text(list) + "]"@
}

pub open spec fn items_text(list: Seq<usize>) -> Seq<char>
    decreases list.len(),
{
    if list.len() == 0 {
        Seq::empty()
    } else if list.len() == 1 {
        decimal(list[0] as nat)
    } else {
        items_text(list.drop_last()) + ", "@ + decimal(list.last() as nat)
    }
}

/// The text for a parity that is already determined to the opposite value.
pub open spec fn impossible_text(constraint: MeasurementParity) -> Seq<char> {
    "pinned measurement parity over "@ + list_text(constraint.records@)
        + " is deterministic and cannot be "@ + if constraint.value {
        "1"@
    } else {
        "0"@
    }
}

/// Constraint `i` is where planning stops: those before it can be met together,
/// and either one of its records is refused, or no choice of branches meets it
/// along with them.
pub open spec fn fails_at(
    program: &FactoredInstructionProgram,
    constraints: Seq<MeasurementParity>,
    i: int,
    text: Seq<char>,
) -> bool {
    &&& 0 <= i < constraints.len()
    &&& forall|k: int| 0 <= k < i ==> constrainable(program, #[trigger] constraints[k])
    &&& exists|b: spec_fn(i32) -> bool| #[trigger] all_satisfied(program, constraints, i, b)
    &&& {
        ||| refuses_record(program, constraints[i], text)
        ||| {
            &&& constrainable(program, constraints[i])
            &&& forall|b: spec_fn(i32) -> bool| !#[trigger] all_satisfied(program, constraints, i + 1, b)
            &&& text == impossible_text(constraints[i])
        }
    }
}

/// The constraints cannot be met, for the reason in the text.
pub open spec fn fails(
    program: &FactoredInstructionProgram,
    constraints: Seq<MeasurementParity>,
    text: Seq<char>,
) -> bool {
    exists|i: int| fails_at(program, constraints, i, text)
}

proof fn lemma_writer(program: &FactoredInstructionProgram, record: int, i: int)
    requires
        0 <= record < i32::MAX,
        written_last(program, program.instructions@.len() as int, one_based_record(record), i),
    ensures
        writer(program, record) == i,
        is_written(program, record),
{
    let n = program.instructions@.len() as int;
    let r = one_based_record(record);
    let j = writer(program, record);
    assert(written_last(program, n, r, j));
    if i < j {
        assert(program.instructions@[j].writes() != Some(r));
    } else if j < i {
        assert(program.instructions@[i].writes() != Some(r));
    }
    assert(program.instructions@[i].writes() == Some(r));
}

fn items_string(list: &Vec<usize>, n: usize, out: &mut String)
    requires
        n <= list@.len(),
    ensures
        final(out)@ == old(out)@ + items_text(list@.take(n as int)),
    decreases n,
{
    if n == 0 {
        assert(out@ =~= old(out)@ + items_text(list@.take(0)));
        return;
    }
    let ghost taken = list@.take(n as int);
    if n > 1 {
        items_string(list, n - 1, out);
        out.append(", ");
        assert(taken.drop_last() =~= list@.take(n - 1));
    }
    push_decimal(out, list[n - 1] as u64);
    assert(out@ =~= old(out)@ + items_text(taken));
}

fn impossible_message(constraint: &MeasurementParity) -> (r: TicitError)
    ensures
        r@ == impossible_text(*constraint),
{
    let mut text: String = "pinned measurement parity over ".to_owned();
    text.append("[");
    items_string(&constraint.records, constraint.records.len(), &mut text);
    text.append("]");
    text.append(" is deterministic and cannot be ");
    if constraint.value {
        text.append("1");
    } else {
        text.append("0");
    }
    assert(constraint.records@.take(constraint.records@.len() as int) =~= constraint.records@);
    assert(text@ =~= impossible_text(*constraint));
    TicitError::with_text(text)
}

impl ProgramSymbols {
    /// Expands `expr` with every exogenous symbol held at zero.
    fn expand(&mut self, program: &FactoredInstructionProgram, expr: &SymbolicBool) -> (r: Result<
        SymbolicBool,
    >)
        requires
            old(self).wf(program),
            expr.wf(),
        ensures
            final(self).wf(program),
            final(self).grows(old(self)),
            match r {
                Ok(e) => {
                    &&& over_branches(program, e)
                    &&& exists|d: int| expression_resolves(program, *expr, d)
                    &&& forall|b: spec_fn(i32) -> bool, d: int|
                        expression_resolves(program, *expr, d) ==> #[trigger] expr.value(
                            noiseless_run(program, b, d),
                        ) == e.value(b)
                },
                Err(err) => {
                    &&& forall|d: int| !expression_resolves(program, *expr, d)
                    &&& err@ == "measurement record expression is cyclic"@
                },
            },
    {
        let mut k: usize = 0;
        while k < expr.conditions.len()
            invariant
                k <= expr.conditions@.len(),
                expr.wf(),
                self.wf(program),
                self.grows(old(self)),
                forall|j: int|
                    0 <= j < k ==> self.expansions@.contains_key(#[trigger] expr.conditions@[j]),
            decreases expr.conditions@.len() - k,
        {
            let ghost before = *self;
            match self.expand_symbol(program, expr.conditions[k]) {
                Ok(_) => {},
                Err(e) => {
                    proof {
                        assert forall|d: int| !expression_resolves(program, *expr, d) by {
                            if expression_resolves(program, *expr, d) {
                                assert(resolves(program, expr.conditions@[k as int], d));
                            }
                        }
                    }
                    return Err(e);
                },
            }
            assert forall|j: int| 0 <= j < k + 1 implies self.expansions@.contains_key(
                #[trigger] expr.conditions@[j],
            ) by {
                if j < k {
                    assert(before.expansions@.contains_key(expr.conditions@[j]));
                }
            }
            k += 1;
        }
        let out: SymbolicBool = self.combine(program, expr);
        proof {
            let c = expr.conditions@;
            assert forall|j: int| 0 <= j < c.len() implies acyclic(program, #[trigger] c[j]) by {
                assert(expands(program, c[j], self.expansions@[c[j]]));
            }
            let d0 = lemma_common_depth(program, c);
            assert(expression_resolves(program, *expr, d0));
            assert forall|b: spec_fn(i32) -> bool, d: int|
                expression_resolves(program, *expr, d) implies #[trigger] expr.value(
                noiseless_run(program, b, d),
            ) == out.value(b) by {
                let f = noiseless_run(program, b, d);
                let g = expanded(self.expansions@, b);
                assert forall|j: int| 0 <= j < c.len() implies f(#[trigger] c[j]) == g(c[j]) by {
                    assert(expands(program, c[j], self.expansions@[c[j]]));
                    assert(resolves(program, c[j], d));
                    assert(noiseless(program, c[j], b, d) == self.expansions@[c[j]].value(b));
                }
                lemma_xor_of_ext(c, f, g);
            }
        }
        Ok(out)
    }

    /// The record's noiseless value as an XOR over branch symbols.
    fn record_expansion(&mut self, program: &FactoredInstructionProgram, record: usize) -> (r: Result<
        SymbolicBool,
    >)
        requires
            old(self).wf(program),
        ensures
            final(self).wf(program),
            match r {
                Ok(e) => {
                    &&& record_refusal(program, record as int) is None
                    &&& over_branches(program, e)
                    &&& forall|b: spec_fn(i32) -> bool|
                        #[trigger] e.value(b) == record_value(program, record as int, b)
                },
                Err(err) => record_refusal(program, record as int) == Some(err@),
            },
    {
        if record >= i32::MAX as usize {
            return Err(TicitError::new("pinned measurement record index is out of range"));
        }
        let one_based: i32 = (record + 1) as i32;
        let instruction: usize = match self.record_instruction.get(&one_based) {
            Some(instruction) => *instruction,
            None => {
                let mut text: String = "pinned measurement record ".to_owned();
                push_decimal(&mut text, record as u64);
                text.append(" is not written by this circuit");
                proof {
                    assert(!is_written(program, record as int)) by {
                        if is_written(program, record as int) {
                            let i = choose|i: int|
                                0 <= i < program.instructions@.len()
                                    && (#[trigger] program.instructions@[i]).writes() == Some(
                                    one_based_record(record as int),
                                );
                            assert(program.instructions@[i].writes() == Some(one_based));
                            assert(self.record_instruction@.contains_key(one_based));
                        }
                    }
                }
                return Err(TicitError::with_text(text));
            },
        };
        proof {
            assert(self.record_instruction@.contains_key(one_based));
            lemma_writer(program, record as int, instruction as int);
            assert(program.instructions@[instruction as int].wf());
        }
        match program.instructions[instruction].outcome() {
            Some(outcome) => {
                let r: Result<SymbolicBool> = self.expand(program, outcome);
                proof {
                    let e = outcome_at(program, writer(program, record as int));
                    assert(*outcome == e);
                    if r is Ok {
                        let d = choose|d: int| expression_resolves(program, e, d);
                        assert forall|b: spec_fn(i32) -> bool| #[trigger] r->Ok_0.value(b)
                            == record_value(program, record as int, b) by {
                            assert(e.value(noiseless_run(program, b, d)) == r->Ok_0.value(b));
                        }
                    }
                }
                r
            },
            None => {
                assert(false);
                Err(TicitError::new("measurement instruction has no outcome expression"))
            },
        }
    }

    /// The term of a row that is drawn last, with the instruction that draws it.
    fn last_drawn(&self, program: &FactoredInstructionProgram, row: &SymbolicBool) -> (r: Option<
        (usize, i32),
    >)
        requires
            self.wf(program),
            over_branches(program, *row),
        ensures
            match r {
                None => row.conditions@.len() == 0,
                Some((i, p)) => {
                    &&& row.conditions@.contains(p)
                    &&& draw_index(program, p) == i
                    &&& i < program.instructions@.len()
                    &&& program.instructions@[i as int].drawn() == Some(p)
                    &&& forall|c: i32| #[trigger]
                        row.conditions@.contains(c) && c != p ==> draw_index(program, c) < i
                },
            },
    {
        let mut best: Option<(usize, i32)> = None;
        let mut k: usize = 0;
        while k < row.conditions.len()
            invariant
                k <= row.conditions@.len(),
                self.wf(program),
                over_branches(program, *row),
                match best {
                    None => k == 0,
                    Some((i, p)) => {
                        &&& exists|j: int| 0 <= j < k && row.conditions@[j] == p
                        &&& drawn_last(program, program.instructions@.len() as int, p, i as int)
                        &&& forall|j: int|
                            0 <= j < k && row.conditions@[j] != p ==> draw_index(
                                program,
                                #[trigger] row.conditions@[j],
                            ) < i
                    },
                },
            decreases row.conditions@.len() - k,
        {
            let symbol: i32 = row.conditions[k];
            let ghost n = program.instructions@.len() as int;
            assert(row.conditions@.contains(symbol));
            assert(is_drawn(program, n, symbol));
            assert(self.branch_instruction@.contains_key(symbol));
            match self.branch_instruction.get(&symbol) {
                Some(at) => {
                    let instruction: usize = *at;
                    proof {
                        lemma_draw_index(program, symbol, instruction as int);
                    }
                    match best {
                        None => {
                            assert(row.conditions@[k as int] == symbol);
                            best = Some((instruction, symbol));
                        },
                        Some((i, p)) => {
                            proof {
                                lemma_draw_index(program, p, i as int);
                                // One instruction draws one symbol.
                                if i == instruction {
                                    assert(p == symbol);
                                }
                            }
                            if i < instruction || (i == instruction && p < symbol) {
                                assert(row.conditions@[k as int] == symbol);
                                best = Some((instruction, symbol));
                            }
                        },
                    }
                },
                None => {
                    assert(false);
                },
            }
            k += 1;
        }
        proof {
            match best {
                None => {},
                Some((i, p)) => {
                    lemma_draw_index(program, p, i as int);
                    assert forall|c: i32| #[trigger]
                        row.conditions@.contains(c) && c != p implies draw_index(program, c) < i by {
                        let j = choose|j: int| 0 <= j < row.conditions@.len() && row.conditions@[j]
                            == c;
                        assert(draw_index(program, row.conditions@[j]) < i);
                    }
                },
            }
        }
        best
    }
}

/// The last instruction that draws a branch symbol.
pub open spec fn draw_index(program: &FactoredInstructionProgram, symbol: i32) -> int {
    choose|i: int| drawn_last(program, program.instructions@.len() as int, symbol, i)
}

proof fn lemma_draw_index(program: &FactoredInstructionProgram, symbol: i32, i: int)
    requires
        drawn_last(program, program.instructions@.len() as int, symbol, i),
    ensures
        draw_index(program, symbol) == i,
        program.instructions@[i].drawn() == Some(symbol),
{
    let n = program.instructions@.len() as int;
    let j = draw_index(program, symbol);
    assert(drawn_last(program, n, symbol, j));
    if i < j {
        assert(program.instructions@[j].drawn() != Some(symbol));
    } else if j < i {
        assert(program.instructions@[i].drawn() != Some(symbol));
    }
}

// ---------------------------------------------------------------------------
// Elimination
// ---------------------------------------------------------------------------
/// A row of the system: a constant and the branches that it is XORed with.
#[verifier::ext_equal]
pub struct Form {
    pub constant: bool,
    pub symbols: Set<i32>,
}

impl Form {
    pub open spec fn xor(self, other: Form) -> Form {
        Form {
            constant: self.constant != other.constant,
            symbols: Set::new(|c: i32| self.symbols.contains(c) != other.symbols.contains(c)),
        }
    }
}

pub open spec fn form_of(row: SymbolicBool) -> Form {
    Form { constant: row.constant, symbols: Set::new(|c: i32| row.conditions@.contains(c)) }
}

/// The row of a constraint: an XOR of branches that comes out zero exactly when the
/// constraint holds.
pub open spec fn is_row(
    program: &FactoredInstructionProgram,
    constraint: MeasurementParity,
    row: SymbolicBool,
) -> bool {
    &&& over_branches(program, row)
    &&& forall|b: spec_fn(i32) -> bool|
        #[trigger] row.value(b) == !satisfied(program, constraint, b)
}

/// Instruction `i` is the last to draw some branch of the row.
pub open spec fn draws_term(program: &FactoredInstructionProgram, f: Form, i: int) -> bool {
    exists|c: i32| #[trigger] f.symbols.contains(c) && draw_index(program, c) == i
}

/// What is left of a row after the pivots at the instructions below `limit` are taken
/// out of it, latest first: the first instruction without a pivot that draws a term of
/// it, or -1 where no term is left.
pub open spec fn reduced(
    program: &FactoredInstructionProgram,
    pivots: Map<int, Form>,
    f: Form,
    limit: int,
) -> (int, Form)
    decreases limit,
{
    if limit <= 0 {
        (-1, f)
    } else if !draws_term(program, f, limit - 1) {
        reduced(program, pivots, f, limit - 1)
    } else if pivots.contains_key(limit - 1) {
        reduced(program, pivots, f.xor(pivots[limit - 1]), limit - 1)
    } else {
        (limit - 1, f)
    }
}

/// The pivots with a row added.
pub open spec fn with_row(
    program: &FactoredInstructionProgram,
    pivots: Map<int, Form>,
    f: Form,
) -> Map<int, Form> {
    let (i, g) = reduced(program, pivots, f, program.instructions@.len() as int);
    if i < 0 {
        pivots
    } else {
        pivots.insert(i, g)
    }
}

/// The pivots of the first `n` rows, by the instruction that draws the pivot.
pub open spec fn pivots_of(
    program: &FactoredInstructionProgram,
    rows: Seq<SymbolicBool>,
    n: int,
) -> Map<int, Form>
    decreases n,
{
    if n <= 0 {
        Map::empty()
    } else {
        with_row(program, pivots_of(program, rows, n - 1), form_of(rows[n - 1]))
    }
}

/// Where nothing is drawn late, the search can start earlier.
proof fn lemma_reduced_skips(
    program: &FactoredInstructionProgram,
    pivots: Map<int, Form>,
    f: Form,
    low: int,
    limit: int,
)
    requires
        0 <= low <= limit,
        forall|c: i32| #[trigger] f.symbols.contains(c) ==> draw_index(program, c) < low,
    ensures
        reduced(program, pivots, f, limit) == reduced(program, pivots, f, low),
    decreases limit,
{
    if low < limit {
        assert(!draws_term(program, f, limit - 1));
        lemma_reduced_skips(program, pivots, f, low, limit - 1);
    }
}

/// The rows by the instruction that draws their pivot.
spec fn pivot_map(rows: Seq<PivotRow>) -> Map<int, Form> {
    Map::new(
        |i: int| exists|k: int| 0 <= k < rows.len() && (#[trigger] rows[k]).instruction == i,
        |i: int|
            form_of(
                rows[choose|k: int| 0 <= k < rows.len() && (#[trigger] rows[k]).instruction == i].row,
            ),
    )
}

pub proof fn lemma_pivots_ext(
    program: &FactoredInstructionProgram,
    a: Seq<SymbolicBool>,
    b: Seq<SymbolicBool>,
    n: int,
)
    requires
        n <= a.len(),
        n <= b.len(),
        forall|i: int| 0 <= i < n ==> form_of(#[trigger] a[i]) == form_of(b[i]),
    ensures
        pivots_of(program, a, n) == pivots_of(program, b, n),
    decreases n,
{
    if n > 0 {
        lemma_pivots_ext(program, a, b, n - 1);
        assert(form_of(a[n - 1]) == form_of(b[n - 1]));
    }
}

proof fn lemma_pivot_at(program: &FactoredInstructionProgram, rows: Seq<PivotRow>, k: int)
    requires
        rows_wf(program, rows),
        0 <= k < rows.len(),
    ensures
        pivot_map(rows).contains_key(rows[k].instruction as int),
        pivot_map(rows)[rows[k].instruction as int] == form_of(rows[k].row),
{
    let i = rows[k].instruction as int;
    let j = choose|j: int| 0 <= j < rows.len() && (#[trigger] rows[j]).instruction == i;
    assert(rows[k].instruction == i);
    if j < k {
        assert(rows[j].instruction < rows[k].instruction);
    } else if k < j {
        assert(rows[k].instruction < rows[j].instruction);
    }
}

proof fn lemma_pivot_insert(
    program: &FactoredInstructionProgram,
    rows: Seq<PivotRow>,
    at: int,
    added: PivotRow,
)
    requires
        rows_wf(program, rows),
        rows_wf(program, rows.insert(at, added)),
        0 <= at <= rows.len(),
    ensures
        pivot_map(rows.insert(at, added)) == pivot_map(rows).insert(
            added.instruction as int,
            form_of(added.row),
        ),
{
    let more = rows.insert(at, added);
    let a = pivot_map(more);
    let b = pivot_map(rows).insert(added.instruction as int, form_of(added.row));
    assert(more[at] == added);
    lemma_pivot_at(program, more, at);
    assert forall|i: int| #[trigger] a.dom().contains(i) implies b.dom().contains(i) && a[i]
        == b[i] by {
        if i != added.instruction {
            let k = choose|k: int| 0 <= k < more.len() && (#[trigger] more[k]).instruction == i;
            lemma_pivot_at(program, more, k);
            let m = if k < at {
                k
            } else {
                k - 1
            };
            assert(more[k] == rows[m]);
            lemma_pivot_at(program, rows, m);
        }
    }
    assert forall|i: int| #[trigger] b.dom().contains(i) implies a.dom().contains(i) by {
        if i != added.instruction {
            let k = choose|k: int| 0 <= k < rows.len() && (#[trigger] rows[k]).instruction == i;
            let m = if k < at {
                k
            } else {
                k + 1
            };
            assert(more[m] == rows[k]);
            lemma_pivot_at(program, more, m);
        }
    }
    assert(a.dom() =~= b.dom());
    assert(a =~= b);
}

/// A row of the reduced system: `row` must come out zero, and `pivot` is its term
/// that `instruction` draws, after all the others.
struct PivotRow {
    instruction: usize,
    pivot: i32,
    row: SymbolicBool,
}

spec fn pivot_row_wf(program: &FactoredInstructionProgram, r: PivotRow) -> bool {
    &&& over_branches(program, r.row)
    &&& r.row.conditions@.contains(r.pivot)
    &&& r.instruction < program.instructions@.len()
    &&& program.instructions@[r.instruction as int].drawn() == Some(r.pivot)
    &&& draw_index(program, r.pivot) == r.instruction
    &&& forall|c: i32| #[trigger]
        r.row.conditions@.contains(c) && c != r.pivot ==> draw_index(program, c) < r.instruction
}

spec fn rows_wf(program: &FactoredInstructionProgram, rows: Seq<PivotRow>) -> bool {
    &&& forall|k: int| 0 <= k < rows.len() ==> pivot_row_wf(program, #[trigger] rows[k])
    &&& forall|j: int, k: int|
        0 <= j < k < rows.len() ==> rows[j].instruction < rows[k].instruction
}

/// The pin is the row, solved for its pivot.
spec fn solved(r: PivotRow, f: ForcedBranch) -> bool {
    &&& f.instruction == r.instruction
    &&& f.plan.constant == r.row.constant
    &&& forall|c: i32| #[trigger]
        f.plan.conditions@.contains(c) == (r.row.conditions@.contains(c) && c != r.pivot)
}

/// Every row comes out zero.
spec fn rows_zero(rows: Seq<PivotRow>, b: spec_fn(i32) -> bool) -> bool {
    forall|k: int| 0 <= k < rows.len() ==> !(#[trigger] rows[k]).row.value(b)
}

/// The branches `b` with one symbol changed.
spec fn with_symbol(b: spec_fn(i32) -> bool, p: i32, value: bool) -> spec_fn(i32) -> bool {
    |c: i32|
        if c == p {
            value
        } else {
            b(c)
        }
}

/// Changing a symbol that an ascending list holds flips its XOR.
proof fn lemma_xor_of_flip(c: Seq<i32>, b: spec_fn(i32) -> bool, p: i32)
    requires
        canonical(c),
    ensures
        xor_of(c, with_symbol(b, p, !b(p))) == (xor_of(c, b) != c.contains(p)),
    decreases c.len(),
{
    if c.len() > 0 {
        let rest = c.drop_last();
        assert forall|i: int, j: int| 0 <= i < j < rest.len() implies rest[i] < rest[j] by {
            assert(c[i] < c[j]);
        }
        assert forall|i: int| 0 <= i < rest.len() implies 0 < #[trigger] rest[i] by {
            assert(0 < c[i]);
        }
        lemma_xor_of_flip(rest, b, p);
        if c.last() == p {
            assert(c.contains(p)) by {
                assert(c[c.len() - 1] == p);
            }
            assert(!rest.contains(p)) by {
                if rest.contains(p) {
                    let k = choose|k: int| 0 <= k < rest.len() && rest[k] == p;
                    assert(c[k] < c[c.len() - 1]);
                }
            }
        } else {
            assert(c.contains(p) == rest.contains(p)) by {
                if c.contains(p) {
                    let k = choose|k: int| 0 <= k < c.len() && c[k] == p;
                    assert(rest[k] == p);
                }
                if rest.contains(p) {
                    let k = choose|k: int| 0 <= k < rest.len() && rest[k] == p;
                    assert(c[k] == p);
                }
            }
        }
    }
}

/// A reduced system has a solution: choose the pivots in the order in which they
/// are drawn.
proof fn lemma_rows_solvable(program: &FactoredInstructionProgram, rows: Seq<PivotRow>) -> (b: spec_fn(
    i32,
) -> bool)
    requires
        rows_wf(program, rows),
    ensures
        rows_zero(rows, b),
    decreases rows.len(),
{
    if rows.len() == 0 {
        |c: i32| false
    } else {
        let rest = rows.drop_last();
        let r = rows.last();
        assert forall|k: int| 0 <= k < rest.len() implies pivot_row_wf(
            program,
            #[trigger] rest[k],
        ) by {
            assert(rest[k] == rows[k]);
        }
        let b0 = lemma_rows_solvable(program, rest);
        assert(pivot_row_wf(program, rows[rows.len() - 1]));
        let b = if r.row.value(b0) {
            with_symbol(b0, r.pivot, !b0(r.pivot))
        } else {
            b0
        };
        lemma_xor_of_flip(r.row.conditions@, b0, r.pivot);
        assert forall|k: int| 0 <= k < rows.len() implies !(#[trigger] rows[k]).row.value(b) by {
            if k < rest.len() {
                assert(rest[k] == rows[k]);
                assert(!rest[k].row.value(b0));
                assert(pivot_row_wf(program, rows[k]));
                assert(rows[k].instruction < rows[rows.len() - 1].instruction);
                // The pivot is drawn after everything in an earlier row.
                assert(!rows[k].row.conditions@.contains(r.pivot));
                lemma_xor_of_flip(rows[k].row.conditions@, b0, r.pivot);
            }
        }
        b
    }
}

/// The first row whose instruction is not below `instruction`.
fn row_position(rows: &Vec<PivotRow>, instruction: usize) -> (r: usize)
    ensures
        r <= rows@.len(),
        forall|k: int| 0 <= k < r ==> (#[trigger] rows@[k]).instruction < instruction,
        r < rows@.len() ==> rows@[r as int].instruction >= instruction,
{
    let mut k: usize = 0;
    while k < rows.len()
        invariant
            k <= rows@.len(),
            forall|j: int| 0 <= j < k ==> (#[trigger] rows@[j]).instruction < instruction,
        decreases rows@.len() - k,
    {
        if rows[k].instruction >= instruction {
            return k;
        }
        k += 1;
    }
    k
}

/// Reduces a row against the system and adds what is left. Returns whether the
/// system can still be met.
#[verifier::rlimit(40)]
fn absorb(
    symbols: &ProgramSymbols,
    program: &FactoredInstructionProgram,
    rows: &mut Vec<PivotRow>,
    row: SymbolicBool,
) -> (r: bool)
    requires
        symbols.wf(program),
        rows_wf(program, old(rows)@),
        over_branches(program, row),
    ensures
        rows_wf(program, final(rows)@),
        r ==> forall|b: spec_fn(i32) -> bool|
            #[trigger] rows_zero(final(rows)@, b) == (rows_zero(old(rows)@, b) && !row.value(b)),
        !r ==> forall|b: spec_fn(i32) -> bool|
            #[trigger] rows_zero(old(rows)@, b) ==> row.value(b),
        r ==> pivot_map(final(rows)@) == with_row(program, pivot_map(old(rows)@), form_of(row)),
{
    let ghost given = row;
    let ghost start = rows@;
    let ghost pivots = pivot_map(start);
    let ghost n = program.instructions@.len() as int;
    let mut left: SymbolicBool = row;
    let ghost mut limit: int = program.instructions@.len() as int;
    proof {
        assert forall|c: i32| #[trigger] left.conditions@.contains(c) implies draw_index(program, c)
            < limit by {
            lemma_drawn_has_last(program, limit, c);
            let i = choose|i: int| drawn_last(program, limit, c, i);
            lemma_draw_index(program, c, i);
        }
    }
    loop
        invariant
            symbols.wf(program),
            rows@ == start,
            start == old(rows)@,
            given == row,
            rows_wf(program, start),
            over_branches(program, left),
            limit >= 0,
            forall|c: i32| #[trigger] left.conditions@.contains(c) ==> draw_index(program, c) < limit,
            forall|b: spec_fn(i32) -> bool| #[trigger]
                rows_zero(start, b) ==> left.value(b) == given.value(b),
            n == program.instructions@.len(),
            pivots == pivot_map(start),
            reduced(program, pivots, form_of(given), n) == reduced(
                program,
                pivots,
                form_of(left),
                limit,
            ),
        decreases limit,
    {
        match symbols.last_drawn(program, &left) {
            None => {
                proof {
                    assert forall|b: spec_fn(i32) -> bool| left.value(b) == left.constant by {}
                    lemma_reduced_skips(program, pivots, form_of(left), 0, limit);
                }
                return !left.constant;
            },
            Some((instruction, pivot)) => {
                let at: usize = row_position(rows, instruction);
                proof {
                    let f = form_of(left);
                    assert(f.symbols.contains(pivot));
                    assert forall|c: i32| #[trigger] f.symbols.contains(c) implies draw_index(
                        program,
                        c,
                    ) < instruction + 1 by {
                        assert(left.conditions@.contains(c));
                    }
                    assert(left.conditions@.contains(pivot));
                    lemma_reduced_skips(program, pivots, f, instruction + 1, limit);
                    assert(draws_term(program, f, instruction as int));
                }
                if at < rows.len() && rows[at].instruction == instruction {
                    let ghost before = left;
                    left = xor_bool(&left, &rows[at].row);
                    proof {
                        assert(pivot_row_wf(program, start[at as int]));
                        assert(start[at as int].pivot == pivot);
                        lemma_pivot_at(program, start, at as int);
                        assert(form_of(left) =~= form_of(before).xor(form_of(start[at as int].row)));
                        limit = instruction as int;
                        assert forall|c: i32| #[trigger] left.conditions@.contains(c) implies
                            draw_index(program, c) < limit && is_drawn(
                            program,
                            program.instructions@.len() as int,
                            c,
                        ) by {
                            assert(before.conditions@.contains(c)
                                != start[at as int].row.conditions@.contains(c));
                            assert(c != pivot);
                        }
                        assert forall|b: spec_fn(i32) -> bool| #[trigger]
                            rows_zero(start, b) implies left.value(b) == given.value(b) by {
                            assert(!start[at as int].row.value(b));
                            assert(before.value(b) == given.value(b));
                        }
                    }
                } else {
                    let ghost added = PivotRow { instruction, pivot, row: left };
                    rows.insert(at, PivotRow { instruction, pivot, row: left });
                    proof {
                        assert(pivot_row_wf(program, added));
                        lemma_rows_insert(program, start, at as int, added);
                        lemma_pivot_insert(program, start, at as int, added);
                        assert(!pivots.contains_key(instruction as int)) by {
                            if pivots.contains_key(instruction as int) {
                                let k = choose|k: int|
                                    0 <= k < start.len() && (#[trigger] start[k]).instruction
                                        == instruction;
                                if at < k {
                                    assert(start[at as int].instruction < start[k].instruction);
                                }
                            }
                        }
                        assert forall|b: spec_fn(i32) -> bool| #[trigger] rows_zero(rows@, b) == (
                        rows_zero(start, b) && !given.value(b)) by {
                            assert(rows_zero(rows@, b) == (rows_zero(start, b) && !added.row.value(
                                b,
                            )));
                        }
                    }
                    return true;
                }
            },
        }
    }
}

proof fn lemma_drawn_has_last(program: &FactoredInstructionProgram, n: int, s: i32)
    requires
        0 <= n <= program.instructions@.len(),
        is_drawn(program, n, s),
    ensures
        exists|i: int| drawn_last(program, n, s, i),
    decreases n,
{
    let i = choose|i: int| 0 <= i < n && (#[trigger] program.instructions@[i]).drawn() == Some(s);
    let m = n - 1;
    if program.instructions@[m].drawn() == Some(s) {
        assert(drawn_last(program, n, s, m));
    } else {
        assert(is_drawn(program, m, s));
        lemma_drawn_has_last(program, m, s);
        let j = choose|j: int| drawn_last(program, m, s, j);
        assert(drawn_last(program, n, s, j));
    }
}

proof fn lemma_rows_insert(
    program: &FactoredInstructionProgram,
    rows: Seq<PivotRow>,
    at: int,
    added: PivotRow,
)
    requires
        rows_wf(program, rows),
        pivot_row_wf(program, added),
        0 <= at <= rows.len(),
        forall|k: int| 0 <= k < at ==> (#[trigger] rows[k]).instruction < added.instruction,
        at < rows.len() ==> rows[at].instruction > added.instruction,
    ensures
        rows_wf(program, rows.insert(at, added)),
        forall|b: spec_fn(i32) -> bool|
            #[trigger] rows_zero(rows.insert(at, added), b) == (rows_zero(rows, b)
                && !added.row.value(b)),
{
    let more = rows.insert(at, added);
    assert forall|k: int| 0 <= k < more.len() implies pivot_row_wf(program, #[trigger] more[k]) by {
        if k < at {
            assert(more[k] == rows[k]);
        } else if k > at {
            assert(more[k] == rows[k - 1]);
        }
    }
    assert forall|j: int, k: int| 0 <= j < k < more.len() implies more[j].instruction
        < more[k].instruction by {
        if k > at {
            assert(more[k] == rows[k - 1]);
            if at < k - 1 {
                assert(rows[at].instruction < rows[k - 1].instruction);
            }
        }
        if j < at {
            assert(more[j] == rows[j]);
        } else if j > at {
            assert(more[j] == rows[j - 1]);
        }
    }
    assert forall|b: spec_fn(i32) -> bool| #[trigger] rows_zero(more, b) == (rows_zero(rows, b)
        && !added.row.value(b)) by {
        if rows_zero(more, b) {
            assert(!more[at].row.value(b));
            assert forall|k: int| 0 <= k < rows.len() implies !(#[trigger] rows[k]).row.value(b) by {
                if k < at {
                    assert(more[k] == rows[k]);
                    assert(!more[k].row.value(b));
                } else {
                    assert(more[k + 1] == rows[k]);
                    assert(!more[k + 1].row.value(b));
                }
            }
        }
        if rows_zero(rows, b) && !added.row.value(b) {
            assert forall|k: int| 0 <= k < more.len() implies !(#[trigger] more[k]).row.value(b) by {
                if k < at {
                    assert(!rows[k].row.value(b));
                } else if k > at {
                    assert(!rows[k - 1].row.value(b));
                }
            }
        }
    }
}

// ---------------------------------------------------------------------------
// The plan
// ---------------------------------------------------------------------------
/// The branch symbol that a pin replaces.
pub open spec fn pinned(program: &FactoredInstructionProgram, f: ForcedBranch) -> i32 {
    program.instructions@[f.instruction as int].drawn()->0
}

/// The pin can be evaluated where it is needed: its instruction draws a branch,
/// no later instruction draws that branch again, and every symbol of the plan is
/// a branch whose last draw comes earlier.
pub open spec fn pin_is_ready(program: &FactoredInstructionProgram, f: ForcedBranch) -> bool {
    &&& f.plan.wf()
    &&& f.instruction < program.instructions@.len()
    &&& program.instructions@[f.instruction as int].drawn() is Some
    &&& draw_index(program, pinned(program, f)) == f.instruction
    &&& forall|c: i32| #[trigger]
        f.plan.conditions@.contains(c) ==> draw_index(program, c) < f.instruction && is_drawn(
            program,
            program.instructions@.len() as int,
            c,
        )
}

/// Every pinned branch takes the value of its plan.
pub open spec fn pins_hold(
    program: &FactoredInstructionProgram,
    forced: Seq<ForcedBranch>,
    b: spec_fn(i32) -> bool,
) -> bool {
    forall|k: int|
        0 <= k < forced.len() ==> b(pinned(program, #[trigger] forced[k])) == forced[k].plan.value(b)
}

/// The pins are the pivots of the rows, solved for the branch of their instruction.
pub open spec fn solves(
    program: &FactoredInstructionProgram,
    pivots: Map<int, Form>,
    forced: Seq<ForcedBranch>,
) -> bool {
    &&& forall|i: int| #[trigger]
        pivots.contains_key(i) ==> exists|k: int|
            0 <= k < forced.len() && (#[trigger] forced[k]).instruction == i
    &&& forall|k: int|
        0 <= k < forced.len() ==> {
            let f = pivots[(#[trigger] forced[k]).instruction as int];
            &&& pivots.contains_key(forced[k].instruction as int)
            &&& forced[k].plan.constant == f.constant
            &&& forall|c: i32| #[trigger]
                forced[k].plan.conditions@.contains(c) == (f.symbols.contains(c) && c != pinned(
                    program,
                    forced[k],
                ))
        }
}

/// The pins that are planned for the constraints. Every record has a noiseless value,
/// some choice of branches meets all the constraints, and the pins hold exactly on
/// those choices; which branch is pinned, and by what, is fixed by elimination.
pub open spec fn pinned_by(
    program: &FactoredInstructionProgram,
    constraints: Seq<MeasurementParity>,
    forced: Seq<ForcedBranch>,
) -> bool {
    let n = constraints.len() as int;
    &&& forall|i: int| 0 <= i < n ==> constrainable(program, #[trigger] constraints[i])
    &&& forall|k: int| 0 <= k < forced.len() ==> pin_is_ready(program, #[trigger] forced[k])
    &&& forall|j: int, k: int|
        0 <= j < k < forced.len() ==> forced[j].instruction < forced[k].instruction
    &&& forall|b: spec_fn(i32) -> bool|
        #[trigger] pins_hold(program, forced, b) == all_satisfied(program, constraints, n, b)
    &&& exists|b: spec_fn(i32) -> bool| #[trigger] all_satisfied(program, constraints, n, b)
    &&& exists|rows: Seq<SymbolicBool>| #[trigger]
        rows_of(program, constraints, rows) && solves(program, pivots_of(program, rows, n), forced)
}

/// A row for every constraint.
pub open spec fn rows_of(
    program: &FactoredInstructionProgram,
    constraints: Seq<MeasurementParity>,
    rows: Seq<SymbolicBool>,
) -> bool {
    &&& rows.len() == constraints.len()
    &&& forall|i: int| 0 <= i < rows.len() ==> is_row(program, constraints[i], #[trigger] rows[i])
}

/// The row of a constraint: it comes out zero exactly when the constraint holds.
fn constraint_row(
    symbols: &mut ProgramSymbols,
    program: &FactoredInstructionProgram,
    constraint: &MeasurementParity,
) -> (r: Result<SymbolicBool>)
    requires
        old(symbols).wf(program),
    ensures
        final(symbols).wf(program),
        match r {
            Ok(row) => {
                &&& constrainable(program, *constraint)
                &&& over_branches(program, row)
                &&& forall|b: spec_fn(i32) -> bool|
                    #[trigger] row.value(b) == !satisfied(program, *constraint, b)
            },
            Err(e) => refuses_record(program, *constraint, e@),
        },
{
    let mut row: SymbolicBool = SymbolicBool { constant: constraint.value, conditions: Vec::new() };
    let mut j: usize = 0;
    assert(constraint.records@.take(0) =~= Seq::<usize>::empty());
    while j < constraint.records.len()
        invariant
            j <= constraint.records@.len(),
            symbols.wf(program),
            over_branches(program, row),
            forall|k: int|
                0 <= k < j ==> record_refusal(
                    program,
                    #[trigger] constraint.records@[k] as int,
                ) is None,
            forall|b: spec_fn(i32) -> bool|
                #[trigger] row.value(b) == (constraint.value != records_value(
                    program,
                    constraint.records@.take(j as int),
                    b,
                )),
        decreases constraint.records@.len() - j,
    {
        match symbols.record_expansion(program, constraint.records[j]) {
            Ok(expansion) => {
                let ghost before = row;
                row = xor_bool(&row, &expansion);
                proof {
                    let taken = constraint.records@.take(j + 1);
                    assert(taken.drop_last() =~= constraint.records@.take(j as int));
                    assert forall|b: spec_fn(i32) -> bool| #[trigger] row.value(b) == (
                    constraint.value != records_value(program, taken, b)) by {
                        assert(before.value(b) == (constraint.value != records_value(
                            program,
                            constraint.records@.take(j as int),
                            b,
                        )));
                        assert(expansion.value(b) == record_value(
                            program,
                            constraint.records@[j as int] as int,
                            b,
                        ));
                    }
                    assert forall|c: i32| #[trigger] row.conditions@.contains(c) implies is_drawn(
                        program,
                        program.instructions@.len() as int,
                        c,
                    ) by {
                        assert(before.conditions@.contains(c) || expansion.conditions@.contains(c));
                    }
                }
            },
            Err(e) => {
                assert(record_refusal(program, constraint.records@[j as int] as int) == Some(e@));
                return Err(e);
            },
        }
        j += 1;
    }
    assert(constraint.records@.take(j as int) =~= constraint.records@);
    Ok(row)
}

/// Compiles measurement-parity constraints into the branch pins that satisfy
/// them: the pins hold in exactly the noiseless runs in which the constraints do.
pub fn plan_pinned_measurements(
    program: &FactoredInstructionProgram,
    constraints: &[MeasurementParity],
) -> (r: Result<Vec<ForcedBranch>>)
    requires
        program.wf(),
    ensures
        match r {
            Ok(forced) => pinned_by(program, constraints@, forced@),
            Err(e) => fails(program, constraints@, e@),
        },
{
    if constraints.len() == 0 {
        let none: Vec<ForcedBranch> = Vec::new();
        proof {
            assert(all_satisfied(program, constraints@, 0, |c: i32| false));
            let rows: Seq<SymbolicBool> = Seq::empty();
            assert(rows_of(program, constraints@, rows));
            assert(solves(program, pivots_of(program, rows, 0), none@));
        }
        return Ok(none);
    }
    let ghost mut given_rows: Seq<SymbolicBool> = Seq::empty();
    assert(pivot_map(Seq::<PivotRow>::empty()) =~= Map::empty());
    let mut symbols: ProgramSymbols = ProgramSymbols::new(program);
    let mut rows: Vec<PivotRow> = Vec::new();
    let mut i: usize = 0;
    while i < constraints.len()
        invariant
            i <= constraints@.len(),
            symbols.wf(program),
            rows_wf(program, rows@),
            forall|k: int| 0 <= k < i ==> constrainable(program, #[trigger] constraints@[k]),
            forall|b: spec_fn(i32) -> bool|
                #[trigger] rows_zero(rows@, b) == all_satisfied(program, constraints@, i as int, b),
            given_rows.len() == i,
            forall|k: int|
                0 <= k < i ==> is_row(program, constraints@[k], #[trigger] given_rows[k]),
            pivot_map(rows@) == pivots_of(program, given_rows, i as int),
        decreases constraints@.len() - i,
    {
        let ghost before = rows@;
        proof {
            let b = lemma_rows_solvable(program, rows@);
            assert(all_satisfied(program, constraints@, i as int, b));
        }
        match constraint_row(&mut symbols, program, &constraints[i]) {
            Err(e) => {
                assert(fails_at(program, constraints@, i as int, e@));
                assert(fails(program, constraints@, e@));
                return Err(e);
            },
            Ok(row) => {
                let ghost given = row;
                let met: bool = absorb(&symbols, program, &mut rows, row);
                if !met {
                    let e: TicitError = impossible_message(&constraints[i]);
                    proof {
                        assert forall|b: spec_fn(i32) -> bool| !#[trigger] all_satisfied(
                            program,
                            constraints@,
                            i + 1,
                            b,
                        ) by {
                            if all_satisfied(program, constraints@, i + 1, b) {
                                assert(all_satisfied(program, constraints@, i as int, b));
                                assert(rows_zero(before, b));
                                assert(given.value(b));
                                assert(satisfied(program, constraints@[i as int], b));
                            }
                        }
                        assert(fails_at(program, constraints@, i as int, e@));
                    }
                    return Err(e);
                }
                proof {
                    assert forall|b: spec_fn(i32) -> bool| #[trigger] rows_zero(rows@, b)
                        == all_satisfied(program, constraints@, i + 1, b) by {
                        assert(rows_zero(before, b) == all_satisfied(
                            program,
                            constraints@,
                            i as int,
                            b,
                        ));
                        assert(given.value(b) == !satisfied(program, constraints@[i as int], b));
                        if all_satisfied(program, constraints@, i + 1, b) {
                            assert(satisfied(program, constraints@[i as int], b));
                        }
                    }
                    let more = given_rows.push(given);
                    lemma_pivots_ext(program, given_rows, more, i as int);
                    assert(more[i as int] == given);
                    assert(is_row(program, constraints@[i as int], given));
                    given_rows = more;
                }
            },
        }
        i += 1;
    }
    let mut forced: Vec<ForcedBranch> = Vec::new();
    let mut k: usize = 0;
    while k < rows.len()
        invariant
            k <= rows@.len(),
            rows_wf(program, rows@),
            forced@.len() == k,
            forall|j: int|
                0 <= j < k ==> (#[trigger] forced@[j]).instruction == rows@[j].instruction,
            forall|j: int| 0 <= j < k ==> pin_is_ready(program, #[trigger] forced@[j]),
            forall|j: int, b: spec_fn(i32) -> bool|
                0 <= j < k ==> #[trigger] forced@[j].plan.value(b) == (rows@[j].row.value(b) != b(
                    rows@[j].pivot,
                )),
            forall|j: int| 0 <= j < k ==> solved(rows@[j], #[trigger] forced@[j]),
        decreases rows@.len() - k,
    {
        assert(pivot_row_wf(program, rows@[k as int]));
        let ghost r = rows@[k as int];
        let one: SymbolicBool = symbolic_bool(positive_pivot(program, &rows[k]));
        // `row == 0` means `pivot == everything else in the row`.
        let assignment: SymbolicBool = xor_bool(&rows[k].row, &one);
        let plan: SymbolicBoolEvaluationPlan = SymbolicBoolEvaluationPlan::new(&assignment);
        let pin: ForcedBranch = ForcedBranch { instruction: rows[k].instruction, plan };
        proof {
            assert forall|c: i32| #[trigger] one.conditions@.contains(c) == (c == r.pivot) by {
                assert(one.conditions@[0] == r.pivot);
            }
            assert forall|b: spec_fn(i32) -> bool| #[trigger] one.value(b) == b(r.pivot) by {
                assert(one.conditions@.drop_last() =~= Seq::<i32>::empty());
                assert(xor_of(one.conditions@.drop_last(), b) == false);
            }
            assert forall|c: i32| #[trigger] pin.plan.conditions@.contains(c) implies draw_index(
                program,
                c,
            ) < pin.instruction && is_drawn(program, program.instructions@.len() as int, c) by {
                assert(assignment.conditions@.contains(c));
                assert(one.conditions@.contains(c) == (c == r.pivot));
                assert(r.row.conditions@.contains(c));
                assert(c != r.pivot);
            }
            assert(pin_is_ready(program, pin));
            assert(solved(r, pin)) by {
                assert forall|c: i32| #[trigger] pin.plan.conditions@.contains(c) == (
                r.row.conditions@.contains(c) && c != r.pivot) by {
                    assert(assignment.conditions@.contains(c) == (r.row.conditions@.contains(c)
                        != one.conditions@.contains(c)));
                    assert(one.conditions@.contains(c) == (c == r.pivot));
                }
            }
            assert forall|b: spec_fn(i32) -> bool| #[trigger] pin.plan.value(b) == (r.row.value(b)
                != b(r.pivot)) by {
                assert(assignment.value(b) == (r.row.value(b) != one.value(b)));
            }
        }
        forced.push(pin);
        k += 1;
    }
    proof {
        assert forall|b: spec_fn(i32) -> bool| #[trigger] pins_hold(program, forced@, b)
            == all_satisfied(program, constraints@, constraints@.len() as int, b) by {
            assert(rows_zero(rows@, b) == all_satisfied(
                program,
                constraints@,
                constraints@.len() as int,
                b,
            ));
            assert forall|j: int| 0 <= j < rows@.len() implies pinned(program, #[trigger] forced@[j])
                == rows@[j].pivot && forced@[j].plan.value(b) == (rows@[j].row.value(b) != b(
                rows@[j].pivot,
            )) by {
                assert(pivot_row_wf(program, rows@[j]));
                assert(forced@[j].instruction == rows@[j].instruction);
            }
            if pins_hold(program, forced@, b) {
                assert forall|j: int| 0 <= j < rows@.len() implies !(#[trigger] rows@[j]).row.value(
                    b,
                ) by {
                    assert(b(pinned(program, forced@[j])) == forced@[j].plan.value(b));
                }
            }
            if rows_zero(rows@, b) {
                assert forall|j: int| 0 <= j < forced@.len() implies b(
                    pinned(program, #[trigger] forced@[j]),
                ) == forced@[j].plan.value(b) by {
                    assert(!rows@[j].row.value(b));
                }
            }
        }
        let b = lemma_rows_solvable(program, rows@);
        assert(rows_zero(rows@, b));
        assert(all_satisfied(program, constraints@, constraints@.len() as int, b));
        lemma_rows_solve(program, rows@, forced@);
        assert(rows_of(program, constraints@, given_rows));
    }
    Ok(forced)
}

/// Solving every row for its pivot solves the system.
proof fn lemma_rows_solve(
    program: &FactoredInstructionProgram,
    rows: Seq<PivotRow>,
    forced: Seq<ForcedBranch>,
)
    requires
        rows_wf(program, rows),
        forced.len() == rows.len(),
        forall|j: int| 0 <= j < rows.len() ==> solved(rows[j], #[trigger] forced[j]),
    ensures
        solves(program, pivot_map(rows), forced),
{
    let pivots = pivot_map(rows);
    assert forall|i: int| #[trigger] pivots.contains_key(i) implies exists|k: int|
        0 <= k < forced.len() && (#[trigger] forced[k]).instruction == i by {
        let k = choose|k: int| 0 <= k < rows.len() && (#[trigger] rows[k]).instruction == i;
        assert(solved(rows[k], forced[k]));
    }
    assert forall|k: int| 0 <= k < forced.len() implies {
        let f = pivots[(#[trigger] forced[k]).instruction as int];
        &&& pivots.contains_key(forced[k].instruction as int)
        &&& forced[k].plan.constant == f.constant
        &&& forall|c: i32| #[trigger]
            forced[k].plan.conditions@.contains(c) == (f.symbols.contains(c) && c != pinned(
                program,
                forced[k],
            ))
    } by {
        lemma_pivot_at(program, rows, k);
        assert(solved(rows[k], forced[k]));
        assert(pivot_row_wf(program, rows[k]));
    }
}

fn positive_pivot(program: &FactoredInstructionProgram, row: &PivotRow) -> (r: i32)
    requires
        pivot_row_wf(program, *row),
    ensures
        r == row.pivot,
        r > 0,
{
    proof {
        let k = choose|k: int| 0 <= k < row.row.conditions@.len() && row.row.conditions@[k]
            == row.pivot;
        assert(0 < row.row.conditions@[k]);
    }
    row.pivot
}

} // verus!
