//! Evaluation of the exogenous half of every instruction's symbolic expression.
//!
//! Each instruction's sign or outcome plan splits into an exogenous part, fully
//! determined by the presampled noise table, and a residual part: measurement
//! branches, known only at execution time. The exogenous partials are interned,
//! so identical partials across instructions are computed once per block, and
//! evaluated through a parent-delta chain: each block expression copies its
//! cheapest predecessor and XORs only the symmetric difference.
use std::collections::HashMap;
use vstd::prelude::*;
use crate::bits::{packed_bit, row_bit, symbol_bit, symbol_word_count, symbol_word_index, word_bit, words_for_bits};
use crate::errors::{Result, TicitError};
use crate::exogenous::{live_word_mask_for_shots, shot_parity, PackedPresampledExogenous};
use crate::planes::{lemma_plane_index, lemma_plane_update, plane_bit, plane_offset};
use crate::program::{FactoredInstruction, FactoredInstructionProgram};
use crate::symbolic::{
    canonical, copy_conditions, lemma_ascending_unique, lemma_xor_of_concat, lemma_xor_of_push,
    strictly_ascending, symmetric_difference, xor_of, SymbolicBool, SymbolicBoolEvaluationPlan,
};

verus! {

broadcast use {crate::bits::group_word_bits, vstd::std_specs::hash::group_hash_axioms};

#[derive(Clone, Debug, Default)]
pub struct PresampledExpression {
    pub constant: bool,
    pub block_expression_index: usize,
    /// Index of the earlier block expression this one deltas from, if any.
    pub parent_block_expression_index: Option<usize>,
    pub parent_delta_constant: bool,
    pub residual_plan: SymbolicBoolEvaluationPlan,
    pub exogenous_conditions: Vec<i32>,
    pub parent_delta_exogenous_conditions: Vec<i32>,
}

#[derive(Clone, Debug, Default)]
pub struct PresampledExpressionPlan {
    pub instruction_expressions: Vec<PresampledExpression>,
    pub block_expressions: Vec<PresampledExpression>,
    pub block_expression_last_use_by_index: Vec<i32>,
}

/// One evaluated block: `expression_words[expr * shot_words + shot_word]`.
#[derive(Clone, Debug, Default, PartialEq, Eq)]
pub struct PresampledExpressionBlock {
    pub nshots: usize,
    pub shot_words: usize,
    pub expression_words: Vec<u64>,
}

impl PresampledExpressionPlan {
    /// An empty plan.
    pub fn new() -> (r: Self)
        ensures
            r.instruction_expressions@.len() == 0,
            r.block_expressions@.len() == 0,
            r.block_expression_last_use_by_index@.len() == 0,
    {
        PresampledExpressionPlan {
            instruction_expressions: Vec::new(),
            block_expressions: Vec::new(),
            block_expression_last_use_by_index: Vec::new(),
        }
    }
}

impl PresampledExpressionBlock {
    /// An empty block.
    pub fn new() -> (r: Self)
        ensures
            r.nshots == 0,
            r.shot_words == 0,
            r.expression_words@.len() == 0,
    {
        PresampledExpressionBlock { nshots: 0, shot_words: 0, expression_words: Vec::new() }
    }
}

// ---------------------------------------------------------------------------
// Splitting
// ---------------------------------------------------------------------------
/// The conditions whose bit in the set is `wanted`, in order.
pub open spec fn selected(c: Seq<i32>, words: Seq<u64>, wanted: bool) -> Seq<i32>
    decreases c.len(),
{
    if c.len() == 0 {
        Seq::empty()
    } else if row_bit(words, symbol_bit(c.last() as int)) == wanted {
        selected(c.drop_last(), words, wanted).push(c.last())
    } else {
        selected(c.drop_last(), words, wanted)
    }
}

/// A selection keeps the order, takes exactly the wanted conditions, and the two
/// selections XOR to the whole.
pub proof fn lemma_selected(c: Seq<i32>, words: Seq<u64>, wanted: bool)
    requires
        canonical(c),
    ensures
        canonical(selected(c, words, wanted)),
        forall|x: i32| #[trigger]
            selected(c, words, wanted).contains(x) == (c.contains(x) && row_bit(
                words,
                symbol_bit(x as int),
            ) == wanted),
        forall|v: spec_fn(i32) -> bool|
            xor_of(c, v) == (#[trigger] xor_of(selected(c, words, wanted), v) != xor_of(
                selected(c, words, !wanted),
                v,
            )),
    decreases c.len(),
{
    if c.len() > 0 {
        let rest = c.drop_last();
        let last = c.last();
        assert forall|i: int, j: int| 0 <= i < j < rest.len() implies rest[i] < rest[j] by {
            assert(c[i] < c[j]);
        }
        assert forall|i: int| 0 <= i < rest.len() implies 0 < #[trigger] rest[i] by {
            assert(0 < c[i]);
        }
        assert(0 < c[c.len() - 1]);
        lemma_selected(rest, words, wanted);
        let a = selected(rest, words, wanted);
        let b = selected(c, words, wanted);
        assert forall|x: i32| c.contains(x) == (rest.contains(x) || x == last) by {
            if c.contains(x) {
                let k = choose|k: int| 0 <= k < c.len() && c[k] == x;
                if k < rest.len() {
                    assert(rest[k] == x);
                }
            }
            if rest.contains(x) {
                let k = choose|k: int| 0 <= k < rest.len() && rest[k] == x;
                assert(c[k] == x);
            }
            if x == last {
                assert(c[c.len() - 1] == x);
            }
        }
        assert forall|k: int| 0 <= k < a.len() implies #[trigger] a[k] < last by {
            assert(a.contains(a[k]));
            assert(rest.contains(a[k]));
            let j = choose|j: int| 0 <= j < rest.len() && rest[j] == a[k];
            assert(c[j] < c[c.len() - 1]);
        }
        if row_bit(words, symbol_bit(last as int)) == wanted {
            assert(b == a.push(last));
            assert forall|i: int, j: int| 0 <= i < j < b.len() implies b[i] < b[j] by {
                if j == a.len() {
                    assert(a[i] < last);
                } else {
                    assert(a[i] < a[j]);
                }
            }
            assert forall|i: int| 0 <= i < b.len() implies 0 < #[trigger] b[i] by {
                if i < a.len() {
                    assert(0 < a[i]);
                }
            }
            assert forall|x: i32| b.contains(x) == (a.contains(x) || x == last) by {
                if b.contains(x) {
                    let k = choose|k: int| 0 <= k < b.len() && b[k] == x;
                    if k < a.len() {
                        assert(a[k] == x);
                    }
                }
                if a.contains(x) {
                    let k = choose|k: int| 0 <= k < a.len() && a[k] == x;
                    assert(b[k] == x);
                }
                if x == last {
                    assert(b[a.len() as int] == x);
                }
            }
        }
        assert forall|v: spec_fn(i32) -> bool| xor_of(c, v) == (#[trigger] xor_of(b, v) != xor_of(
            selected(c, words, !wanted),
            v,
        )) by {
            assert(xor_of(rest, v) == (xor_of(a, v) != xor_of(selected(rest, words, !wanted), v)));
            lemma_xor_of_push(a, last, v);
            lemma_xor_of_push(selected(rest, words, !wanted), last, v);
        }
    }
}

/// The expression is the split of `source`.
pub open spec fn is_split(
    e: PresampledExpression,
    source: SymbolicBoolEvaluationPlan,
    words: Seq<u64>,
) -> bool {
    &&& e.constant == source.constant
    &&& e.exogenous_conditions@ == selected(source.conditions@, words, true)
    &&& e.residual_plan.wf()
    &&& !e.residual_plan.constant
    &&& e.residual_plan.conditions@ == selected(source.conditions@, words, false)
}

/// The split loses nothing: the exogenous partial and the residual XOR to the
/// value of the plan.
pub proof fn law_split_keeps_the_value(
    e: PresampledExpression,
    source: SymbolicBoolEvaluationPlan,
    words: Seq<u64>,
    v: spec_fn(i32) -> bool,
)
    requires
        source.wf(),
        is_split(e, source, words),
    ensures
        source.value(v) == ((e.constant != xor_of(e.exogenous_conditions@, v))
            != e.residual_plan.value(v)),
{
    lemma_selected(source.conditions@, words, true);
    assert(xor_of(source.conditions@, v) == (xor_of(selected(source.conditions@, words, true), v)
        != xor_of(selected(source.conditions@, words, false), v)));
}

fn empty_plan() -> (r: SymbolicBoolEvaluationPlan)
    ensures
        r.wf(),
        !r.constant,
        r.conditions@.len() == 0,
{
    let nothing: SymbolicBool = SymbolicBool { constant: false, conditions: Vec::new() };
    SymbolicBoolEvaluationPlan::new(&nothing)
}

/// An expression that is always false.
fn blank_expression() -> (r: PresampledExpression)
    ensures
        is_blank(r),
{
    PresampledExpression {
        constant: false,
        block_expression_index: 0,
        parent_block_expression_index: None,
        parent_delta_constant: false,
        residual_plan: empty_plan(),
        exogenous_conditions: Vec::new(),
        parent_delta_exogenous_conditions: Vec::new(),
    }
}

/// The expression stands for nothing that is evaluated in bulk.
pub open spec fn is_blank(e: PresampledExpression) -> bool {
    &&& !e.constant
    &&& e.exogenous_conditions@.len() == 0
    &&& e.residual_plan.wf()
    &&& !e.residual_plan.constant
    &&& e.residual_plan.conditions@.len() == 0
}

fn split_presampled_expression(
    source: &SymbolicBoolEvaluationPlan,
    exogenous_assigned_words: &Vec<u64>,
) -> (r: PresampledExpression)
    requires
        source.wf(),
    ensures
        is_split(r, *source, exogenous_assigned_words@),
{
    let mut exogenous: Vec<i32> = Vec::new();
    let mut residual: Vec<i32> = Vec::new();
    let ghost words = exogenous_assigned_words@;
    let mut k: usize = 0;
    assert(source.conditions@.take(0) =~= Seq::<i32>::empty());
    while k < source.conditions.len()
        invariant
            k <= source.conditions@.len(),
            source.wf(),
            words == exogenous_assigned_words@,
            exogenous@ == selected(source.conditions@.take(k as int), words, true),
            residual@ == selected(source.conditions@.take(k as int), words, false),
        decreases source.conditions@.len() - k,
    {
        let condition: i32 = source.conditions[k];
        assert(0 < source.conditions@[k as int]);
        let word: usize = symbol_word_index(condition);
        let is_exogenous: bool = word < exogenous_assigned_words.len() && packed_bit(
            exogenous_assigned_words.as_slice(),
            (condition - 1) as usize,
        );
        proof {
            let taken = source.conditions@.take(k + 1);
            assert(taken.drop_last() =~= source.conditions@.take(k as int));
            assert(taken.last() == condition);
            assert(is_exogenous == row_bit(words, symbol_bit(condition as int)));
        }
        if is_exogenous {
            exogenous.push(condition);
        } else {
            residual.push(condition);
        }
        k += 1;
    }
    assert(source.conditions@.take(k as int) =~= source.conditions@);
    proof {
        lemma_selected(source.conditions@, words, true);
        lemma_selected(source.conditions@, words, false);
    }
    let rest: SymbolicBool = SymbolicBool { constant: false, conditions: residual };
    PresampledExpression {
        constant: source.constant,
        block_expression_index: 0,
        parent_block_expression_index: None,
        parent_delta_constant: false,
        residual_plan: SymbolicBoolEvaluationPlan::new(&rest),
        exogenous_conditions: exogenous,
        parent_delta_exogenous_conditions: Vec::new(),
    }
}

/// Which plan an instruction evaluates in bulk, if any. A detector that reads
/// measurement records, or has a constant outcome, stays on the runtime path.
pub open spec fn bulk_plan(ins: FactoredInstruction) -> Option<SymbolicBoolEvaluationPlan> {
    match ins {
        FactoredInstruction::ApplyPrecomputedActivePauliRotation(inst) => Some(inst.sign_plan),
        FactoredInstruction::PromoteDormantRotation(inst) => Some(inst.sign_plan),
        FactoredInstruction::RecordMeasurement(inst) => Some(inst.outcome_plan),
        FactoredInstruction::RecordDetector(inst) => if inst.records@.len() > 0
            || inst.outcome.conditions@.len() == 0 {
            None
        } else {
            Some(inst.outcome_plan)
        },
        FactoredInstruction::MeasurePrecomputedActivePauli(inst) => Some(inst.outcome_plan),
        FactoredInstruction::IntroduceDormantMeasurementBranch(inst) => Some(inst.outcome_plan),
    }
}

fn instruction_expression_plan(instruction: &FactoredInstruction) -> (r: Option<
    &SymbolicBoolEvaluationPlan,
>)
    ensures
        match r {
            Some(plan) => bulk_plan(*instruction) == Some(*plan),
            None => bulk_plan(*instruction) is None,
        },
{
    match instruction {
        FactoredInstruction::ApplyPrecomputedActivePauliRotation(inst) => Some(&inst.sign_plan),
        FactoredInstruction::PromoteDormantRotation(inst) => Some(&inst.sign_plan),
        FactoredInstruction::RecordMeasurement(inst) => Some(&inst.outcome_plan),
        FactoredInstruction::RecordDetector(inst) => if inst.records.len() > 0
            || inst.outcome.conditions.len() == 0 {
            None
        } else {
            Some(&inst.outcome_plan)
        },
        FactoredInstruction::MeasurePrecomputedActivePauli(inst) => Some(&inst.outcome_plan),
        FactoredInstruction::IntroduceDormantMeasurementBranch(inst) => Some(&inst.outcome_plan),
    }
}

// ---------------------------------------------------------------------------
// Interning
// ---------------------------------------------------------------------------
/// The two expressions have the same exogenous partial.
pub open spec fn same_partial(a: PresampledExpression, b: PresampledExpression) -> bool {
    a.constant == b.constant && a.exogenous_conditions@ == b.exogenous_conditions@
}

/// No two block expressions have the same partial.
pub open spec fn partials_distinct(blocks: Seq<PresampledExpression>) -> bool {
    forall|i: int, j: int|
        0 <= i < j < blocks.len() ==> !same_partial(#[trigger] blocks[i], #[trigger] blocks[j])
}

/// The bucket that a partial is looked up in.
spec fn partial_key(constant: bool, c: Seq<i32>) -> int {
    (if c.len() == 0 {
        0int
    } else {
        2 * c.last() as int
    }) + if constant {
        1int
    } else {
        0int
    }
}

fn partial_bucket(constant: bool, conditions: &Vec<i32>) -> (r: i64)
    ensures
        r == partial_key(constant, conditions@),
{
    let base: i64 = if conditions.len() == 0 {
        0
    } else {
        2 * (conditions[conditions.len() - 1] as i64)
    };
    if constant {
        base + 1
    } else {
        base
    }
}

/// First-encounter interning of exogenous partials. The buckets only speed the
/// lookup up; indices are assigned in encounter order.
struct ExogenousPartialInterner {
    buckets: HashMap<i64, Vec<usize>>,
}

impl ExogenousPartialInterner {
    spec fn wf(&self, blocks: Seq<PresampledExpression>) -> bool {
        &&& forall|i: int|
            0 <= i < blocks.len() ==> {
                let key = partial_key(
                    blocks[i].constant,
                    (#[trigger] blocks[i]).exogenous_conditions@,
                ) as i64;
                self.buckets@.contains_key(key) && self.buckets@[key]@.contains(i as usize)
            }
        &&& forall|key: i64, k: int|
            self.buckets@.contains_key(key) && 0 <= k < self.buckets@[key]@.len()
                ==> #[trigger] self.buckets@[key]@[k] < blocks.len()
    }

    fn intern(
        &mut self,
        blocks: &mut Vec<PresampledExpression>,
        expression: &PresampledExpression,
    ) -> (r: usize)
        requires
            old(self).wf(old(blocks)@),
            partials_distinct(old(blocks)@),
            canonical(expression.exogenous_conditions@),
            forall|i: int|
                0 <= i < old(blocks)@.len() ==> canonical(
                    (#[trigger] old(blocks)@[i]).exogenous_conditions@,
                ),
        ensures
            final(self).wf(final(blocks)@),
            partials_distinct(final(blocks)@),
            forall|i: int|
                0 <= i < final(blocks)@.len() ==> canonical(
                    (#[trigger] final(blocks)@[i]).exogenous_conditions@,
                ),
            r < final(blocks)@.len(),
            same_partial(final(blocks)@[r as int], *expression),
            final(blocks)@ == old(blocks)@ || (r == old(blocks)@.len() && final(blocks)@.len() == r + 1
                && final(blocks)@.take(r as int) == old(blocks)@),
    {
        let key: i64 = partial_bucket(expression.constant, &expression.exogenous_conditions);
        let ghost start = blocks@;
        let ghost table = self.buckets@;
        let mut list: Vec<usize> = match self.buckets.remove(&key) {
            Some(list) => list,
            None => Vec::new(),
        };
        let ghost listed = list@;
        let mut found: Option<usize> = None;
        let mut k: usize = 0;
        while k < list.len()
            invariant
                k <= list@.len(),
                blocks@ == start,
                forall|j: int| 0 <= j < list@.len() ==> #[trigger] list@[j] < start.len(),
                match found {
                    Some(i) => i < start.len() && same_partial(start[i as int], *expression),
                    None => forall|j: int|
                        0 <= j < k ==> !same_partial(start[#[trigger] list@[j] as int], *expression),
                },
            decreases list@.len() - k,
        {
            if found.is_none() {
                let candidate: usize = list[k];
                if blocks[candidate].constant == expression.constant && same_list(
                    &blocks[candidate].exogenous_conditions,
                    &expression.exogenous_conditions,
                ) {
                    found = Some(candidate);
                }
            }
            k += 1;
        }
        match found {
            Some(index) => {
                self.buckets.insert(key, list);
                proof {
                    assert forall|i: int| 0 <= i < start.len() implies {
                        let q = partial_key(
                            start[i].constant,
                            (#[trigger] start[i]).exogenous_conditions@,
                        ) as i64;
                        self.buckets@.contains_key(q) && self.buckets@[q]@.contains(i as usize)
                    } by {
                        let q = partial_key(start[i].constant, start[i].exogenous_conditions@) as i64;
                        assert(table.contains_key(q) && table[q]@.contains(i as usize));
                    }
                    assert forall|q: i64, k: int|
                        self.buckets@.contains_key(q) && 0 <= k < self.buckets@[q]@.len() implies
                        #[trigger] self.buckets@[q]@[k] < start.len() by {
                        if q != key {
                            assert(table[q]@[k] < start.len());
                        }
                    }
                }
                index
            },
            None => {
                let index: usize = blocks.len();
                let fresh: PresampledExpression = PresampledExpression {
                    constant: expression.constant,
                    block_expression_index: 0,
                    parent_block_expression_index: None,
                    parent_delta_constant: false,
                    residual_plan: empty_plan(),
                    exogenous_conditions: copy_conditions(&expression.exogenous_conditions),
                    parent_delta_exogenous_conditions: Vec::new(),
                };
                let ghost added = fresh;
                blocks.push(fresh);
                list.push(index);
                self.buckets.insert(key, list);
                proof {
                    assert(blocks@.take(index as int) =~= start);
                    assert forall|i: int| 0 <= i < start.len() implies !same_partial(
                        #[trigger] start[i],
                        added,
                    ) by {
                        if same_partial(start[i], added) {
                            let q = partial_key(start[i].constant, start[i].exogenous_conditions@) as i64;
                            assert(q == key);
                            assert(table.contains_key(q) && table[q]@.contains(i as usize));
                            let j = choose|j: int| 0 <= j < listed.len() && listed[j] == i as usize;
                            assert(!same_partial(start[listed[j] as int], *expression));
                        }
                    }
                    assert forall|i: int| 0 <= i < blocks@.len() implies {
                        let q = partial_key(
                            blocks@[i].constant,
                            (#[trigger] blocks@[i]).exogenous_conditions@,
                        ) as i64;
                        self.buckets@.contains_key(q) && self.buckets@[q]@.contains(i as usize)
                    } by {
                        if i == start.len() {
                            assert(list@[listed.len() as int] == i as usize);
                        } else {
                            assert(blocks@[i] == start[i]);
                            let q = partial_key(start[i].constant, start[i].exogenous_conditions@) as i64;
                            assert(table.contains_key(q) && table[q]@.contains(i as usize));
                            if q == key {
                                let j = choose|j: int|
                                    0 <= j < listed.len() && listed[j] == i as usize;
                                assert(list@[j] == i as usize);
                            }
                        }
                    }
                    assert forall|q: i64, k: int|
                        self.buckets@.contains_key(q) && 0 <= k < self.buckets@[q]@.len() implies
                        #[trigger] self.buckets@[q]@[k] < blocks@.len() by {
                        if q != key {
                            assert(table[q]@[k] < start.len());
                        } else if k < listed.len() {
                            assert(listed[k] < start.len());
                        }
                    }
                }
                index
            },
        }
    }
}

fn same_list(a: &Vec<i32>, b: &Vec<i32>) -> (r: bool)
    ensures
        r == (a@ == b@),
{
    if a.len() != b.len() {
        return false;
    }
    let mut k: usize = 0;
    while k < a.len()
        invariant
            k <= a@.len(),
            a@.len() == b@.len(),
            forall|j: int| 0 <= j < k ==> #[trigger] a@[j] == b@[j],
        decreases a@.len() - k,
    {
        if a[k] != b[k] {
            return false;
        }
        k += 1;
    }
    assert(a@ =~= b@);
    true
}

// ---------------------------------------------------------------------------
// Parent deltas
// ---------------------------------------------------------------------------
/// The ascending symmetric difference of two ascending lists.
pub open spec fn delta(a: Seq<i32>, b: Seq<i32>) -> Seq<i32>
    decreases a.len() + b.len(),
{
    if a.len() == 0 {
        b
    } else if b.len() == 0 {
        a
    } else if a[0] < b[0] {
        seq![a[0]] + delta(a.skip(1), b)
    } else if b[0] < a[0] {
        seq![b[0]] + delta(a, b.skip(1))
    } else {
        delta(a.skip(1), b.skip(1))
    }
}

proof fn lemma_skip_ascending(a: Seq<i32>)
    requires
        strictly_ascending(a),
        a.len() > 0,
    ensures
        strictly_ascending(a.skip(1)),
        forall|x: i32| #[trigger] a.contains(x) == (x == a[0] || a.skip(1).contains(x)),
        forall|x: i32| #[trigger] a.skip(1).contains(x) ==> a[0] < x,
{
    let t = a.skip(1);
    assert forall|x: i32| #[trigger] a.contains(x) == (x == a[0] || t.contains(x)) by {
        if a.contains(x) {
            let k = choose|k: int| 0 <= k < a.len() && a[k] == x;
            if k > 0 {
                assert(t[k - 1] == x);
            }
        }
        if t.contains(x) {
            let k = choose|k: int| 0 <= k < t.len() && t[k] == x;
            assert(a[k + 1] == x);
        }
    }
    assert forall|x: i32| #[trigger] t.contains(x) implies a[0] < x by {
        let k = choose|k: int| 0 <= k < t.len() && t[k] == x;
        assert(a[0] < a[k + 1]);
    }
}

proof fn lemma_cons_ascending(x: i32, s: Seq<i32>)
    requires
        strictly_ascending(s),
        forall|y: i32| #[trigger] s.contains(y) ==> x < y,
    ensures
        strictly_ascending(seq![x] + s),
        forall|y: i32| #[trigger] (seq![x] + s).contains(y) == (y == x || s.contains(y)),
{
    let t = seq![x] + s;
    assert forall|i: int, j: int| 0 <= i < j < t.len() implies t[i] < t[j] by {
        assert(s.contains(s[j - 1]));
        if i > 0 {
            assert(s[i - 1] < s[j - 1]);
        }
    }
    assert forall|y: i32| #[trigger] t.contains(y) == (y == x || s.contains(y)) by {
        if t.contains(y) {
            let k = choose|k: int| 0 <= k < t.len() && t[k] == y;
            if k > 0 {
                assert(s[k - 1] == y);
            }
        }
        if s.contains(y) {
            let k = choose|k: int| 0 <= k < s.len() && s[k] == y;
            assert(t[k + 1] == y);
        }
        if y == x {
            assert(t[0] == y);
        }
    }
}

pub proof fn lemma_delta(a: Seq<i32>, b: Seq<i32>)
    requires
        strictly_ascending(a),
        strictly_ascending(b),
    ensures
        strictly_ascending(delta(a, b)),
        forall|x: i32| #[trigger] delta(a, b).contains(x) == (a.contains(x) != b.contains(x)),
    decreases a.len() + b.len(),
{
    if a.len() == 0 {
        assert forall|x: i32| !a.contains(x) by {}
    } else if b.len() == 0 {
        assert forall|x: i32| !b.contains(x) by {}
    } else {
        lemma_skip_ascending(a);
        lemma_skip_ascending(b);
        if a[0] < b[0] {
            let rest = delta(a.skip(1), b);
            lemma_delta(a.skip(1), b);
            assert forall|y: i32| #[trigger] rest.contains(y) implies a[0] < y by {
                if b.contains(y) {
                    assert(y == b[0] || b.skip(1).contains(y));
                }
            }
            lemma_cons_ascending(a[0], rest);
            assert(!b.contains(a[0])) by {
                if b.contains(a[0]) {
                    assert(a[0] == b[0] || b.skip(1).contains(a[0]));
                }
            }
            assert(!a.skip(1).contains(a[0]));
        } else if b[0] < a[0] {
            let rest = delta(a, b.skip(1));
            lemma_delta(a, b.skip(1));
            assert forall|y: i32| #[trigger] rest.contains(y) implies b[0] < y by {
                if a.contains(y) {
                    assert(y == a[0] || a.skip(1).contains(y));
                }
            }
            lemma_cons_ascending(b[0], rest);
            assert(!a.contains(b[0])) by {
                if a.contains(b[0]) {
                    assert(b[0] == a[0] || a.skip(1).contains(b[0]));
                }
            }
            assert(!b.skip(1).contains(b[0]));
        } else {
            lemma_delta(a.skip(1), b.skip(1));
            assert(!a.skip(1).contains(a[0]));
            assert(!b.skip(1).contains(b[0]));
        }
    }
}

/// Lists that share nothing add up.
proof fn lemma_delta_disjoint(a: Seq<i32>, b: Seq<i32>)
    requires
        strictly_ascending(a),
        strictly_ascending(b),
        forall|x: i32| #[trigger] a.contains(x) ==> !b.contains(x),
    ensures
        delta(a, b).len() == a.len() + b.len(),
    decreases a.len() + b.len(),
{
    if a.len() > 0 && b.len() > 0 {
        lemma_skip_ascending(a);
        lemma_skip_ascending(b);
        if a[0] < b[0] {
            assert forall|x: i32| #[trigger] a.skip(1).contains(x) implies !b.contains(x) by {
                assert(a.contains(x));
            }
            lemma_delta_disjoint(a.skip(1), b);
        } else if b[0] < a[0] {
            assert forall|x: i32| #[trigger] a.contains(x) implies !b.skip(1).contains(x) by {
                assert(!b.contains(x));
            }
            lemma_delta_disjoint(a, b.skip(1));
        } else {
            assert(a.contains(a[0]));
            assert(b.contains(b[0]));
        }
    }
}

/// How much the step from `parent` to `child` costs: the symmetric difference and
/// a constant flip.
pub open spec fn delta_cost(parent: PresampledExpression, child: PresampledExpression) -> int {
    delta(parent.exogenous_conditions@, child.exogenous_conditions@).len() + flip_cost(
        parent.constant != child.constant,
    )
}

pub open spec fn flip_cost(flip: bool) -> int {
    if flip {
        1
    } else {
        0
    }
}

/// What it costs to evaluate an expression from nothing.
pub open spec fn root_cost(e: PresampledExpression) -> int {
    e.exogenous_conditions@.len() + flip_cost(e.constant)
}

/// The parent is the cheapest of the candidates, the earliest among equals, and
/// undercuts the root; there is none exactly when no candidate undercuts it.
pub open spec fn cheapest(
    blocks: Seq<PresampledExpression>,
    e: int,
    parent: Option<int>,
    candidate: spec_fn(int) -> bool,
) -> bool {
    match parent {
        None => forall|q: int|
            0 <= q < e && #[trigger] candidate(q) ==> delta_cost(blocks[q], blocks[e]) >= root_cost(
                blocks[e],
            ),
        Some(p) => {
            &&& 0 <= p < e
            &&& delta_cost(blocks[p], blocks[e]) < root_cost(blocks[e])
            &&& forall|q: int|
                0 <= q < e && #[trigger] candidate(q) ==> {
                    ||| delta_cost(blocks[q], blocks[e]) > delta_cost(blocks[p], blocks[e])
                    ||| delta_cost(blocks[q], blocks[e]) == delta_cost(blocks[p], blocks[e]) && q >= p
                }
        },
    }
}

/// The parent index as an integer.
pub open spec fn parent_of(e: PresampledExpression) -> Option<int> {
    match e.parent_block_expression_index {
        Some(p) => Some(p as int),
        None => None,
    }
}

/// The expression deltas from the cheapest of all earlier ones.
pub open spec fn parent_chosen(blocks: Seq<PresampledExpression>, e: int) -> bool {
    &&& cheapest(blocks, e, parent_of(blocks[e]), |q: int| true)
    &&& match parent_of(blocks[e]) {
        None => {
            &&& blocks[e].parent_delta_constant == blocks[e].constant
            &&& blocks[e].parent_delta_exogenous_conditions@ == blocks[e].exogenous_conditions@
        },
        Some(p) => {
            &&& blocks[e].parent_delta_constant == (blocks[p].constant != blocks[e].constant)
            &&& blocks[e].parent_delta_exogenous_conditions@ == delta(
                blocks[p].exogenous_conditions@,
                blocks[e].exogenous_conditions@,
            )
        },
    }
}

/// The cost of a delta if it stays below `bound`.
fn bounded_parent_delta_cost(
    parent: &Vec<i32>,
    child: &Vec<i32>,
    delta_constant: bool,
    bound: usize,
) -> (r: Option<usize>)
    requires
        strictly_ascending(parent@),
        strictly_ascending(child@),
    ensures
        match r {
            Some(cost) => cost == delta(parent@, child@).len() + flip_cost(delta_constant) && cost
                < bound,
            None => delta(parent@, child@).len() + flip_cost(delta_constant) >= bound,
        },
{
    let mut cost: usize = if delta_constant {
        1
    } else {
        0
    };
    let mut i: usize = 0;
    let mut j: usize = 0;
    let ghost total = delta(parent@, child@).len() + flip_cost(delta_constant);
    assert(parent@.skip(0) =~= parent@);
    assert(child@.skip(0) =~= child@);
    loop
        invariant
            i <= parent@.len(),
            j <= child@.len(),
            cost + delta(parent@.skip(i as int), child@.skip(j as int)).len() == total,
            total == delta(parent@, child@).len() + flip_cost(delta_constant),
        decreases parent@.len() - i + child@.len() - j,
    {
        if cost >= bound {
            return None;
        }
        let ghost a = parent@.skip(i as int);
        let ghost b = child@.skip(j as int);
        proof {
            if i < parent@.len() {
                assert(a.skip(1) =~= parent@.skip(i + 1));
                assert(a[0] == parent@[i as int]);
            }
            if j < child@.len() {
                assert(b.skip(1) =~= child@.skip(j + 1));
                assert(b[0] == child@[j as int]);
            }
        }
        if i == parent.len() && j == child.len() {
            return Some(cost);
        } else if j == child.len() {
            cost += 1;
            i += 1;
            assert(delta(parent@.skip(i as int), b) =~= parent@.skip(i as int));
        } else if i == parent.len() {
            cost += 1;
            j += 1;
        } else if parent[i] < child[j] {
            cost += 1;
            i += 1;
        } else if child[j] < parent[i] {
            cost += 1;
            j += 1;
        } else {
            i += 1;
            j += 1;
        }
    }
}

/// A parent that undercuts the root shares a condition, or is the constant true.
proof fn lemma_contender(parent: PresampledExpression, child: PresampledExpression)
    requires
        canonical(parent.exogenous_conditions@),
        canonical(child.exogenous_conditions@),
        delta_cost(parent, child) < root_cost(child),
    ensures
        (exists|x: i32| #[trigger]
            parent.exogenous_conditions@.contains(x) && child.exogenous_conditions@.contains(x)) || (
        parent.constant && child.constant && parent.exogenous_conditions@.len() == 0),
{
    let a = parent.exogenous_conditions@;
    let b = child.exogenous_conditions@;
    if forall|x: i32| #[trigger] a.contains(x) ==> !b.contains(x) {
        lemma_delta_disjoint(a, b);
    } else {
        let x = choose|x: i32| #[trigger] a.contains(x) && b.contains(x);
        assert(a.contains(x) && b.contains(x));
    }
}

/// A list of distinct symbol ids is no longer than there are ids.
proof fn lemma_canonical_len(c: Seq<i32>)
    requires
        canonical(c),
    ensures
        c.len() <= i32::MAX,
{
    if c.len() > 0 {
        lemma_canonical_at(c, c.len() - 1);
    }
}

proof fn lemma_canonical_at(c: Seq<i32>, k: int)
    requires
        canonical(c),
        0 <= k < c.len(),
    ensures
        c[k] > k,
    decreases k,
{
    assert(0 < c[k]);
    if k > 0 {
        lemma_canonical_at(c, k - 1);
        assert(c[k - 1] < c[k]);
    }
}

/// Which earlier expressions use each condition.
struct ConditionIndex {
    users: HashMap<i32, Vec<usize>>,
    empty_true: Option<usize>,
}

impl ConditionIndex {
    spec fn uses(&self, c: i32, p: int) -> bool {
        self.users@.contains_key(c) && self.users@[c]@.contains(p as usize)
    }

    spec fn wf(&self, blocks: Seq<PresampledExpression>, e: int) -> bool {
        &&& 0 <= e <= blocks.len()
        &&& forall|c: i32, k: int|
            self.users@.contains_key(c) && 0 <= k < self.users@[c]@.len()
                ==> #[trigger] self.users@[c]@[k] < e
        &&& forall|p: int, c: i32|
            0 <= p < e && #[trigger] blocks[p].exogenous_conditions@.contains(c) ==> self.uses(c, p)
        &&& match self.empty_true {
            Some(p) => p < e && blocks[p as int].constant
                && blocks[p as int].exogenous_conditions@.len() == 0 && forall|q: int|
                0 <= q < p ==> !is_constant_true(#[trigger] blocks[q]),
            None => forall|q: int| 0 <= q < e ==> !is_constant_true(#[trigger] blocks[q]),
        }
    }

    /// Adds expression `e` to the index.
    fn add_expression(&mut self, blocks: &Vec<PresampledExpression>, e: usize)
        requires
            old(self).wf(blocks@, e as int),
            e < blocks@.len(),
        ensures
            final(self).wf(blocks@, e + 1),
    {
        let conditions: &Vec<i32> = &blocks[e].exogenous_conditions;
        if conditions.len() == 0 {
            if blocks[e].constant && self.empty_true.is_none() {
                self.empty_true = Some(e);
            }
            proof {
                assert forall|p: int, c: i32|
                    0 <= p < e + 1 && #[trigger] blocks@[p].exogenous_conditions@.contains(c) implies self.uses(
                    c,
                    p,
                ) by {
                    assert(p < e);
                    assert(old(self).uses(c, p));
                }
            }
            return;
        }
        let ghost empty0 = self.empty_true;
        let mut k: usize = 0;
        while k < conditions.len()
            invariant
                k <= conditions@.len(),
                e < blocks@.len(),
                conditions@ == blocks@[e as int].exogenous_conditions@,
                self.empty_true == empty0,
                forall|c: i32, k: int|
                    self.users@.contains_key(c) && 0 <= k < self.users@[c]@.len()
                        ==> #[trigger] self.users@[c]@[k] < e + 1,
                forall|p: int, c: i32|
                    0 <= p < e && #[trigger] blocks@[p].exogenous_conditions@.contains(c)
                        ==> self.uses(c, p),
                forall|j: int| 0 <= j < k ==> self.uses(#[trigger] conditions@[j], e as int),
            decreases conditions@.len() - k,
        {
            let condition: i32 = conditions[k];
            let ghost table = self.users@;
            let mut list: Vec<usize> = match self.users.remove(&condition) {
                Some(list) => list,
                None => Vec::new(),
            };
            let ghost listed = list@;
            list.push(e);
            self.users.insert(condition, list);
            proof {
                assert forall|c: i32, p: int|
                    table.contains_key(c) && table[c]@.contains(p as usize) implies #[trigger] self.uses(
                    c,
                    p,
                ) by {
                    if c == condition {
                        let j = choose|j: int| 0 <= j < listed.len() && listed[j] == p as usize;
                        assert(list@[j] == p as usize);
                    }
                }
                assert(self.uses(condition, e as int)) by {
                    assert(list@[listed.len() as int] == e);
                }
                assert forall|c: i32, k: int|
                    self.users@.contains_key(c) && 0 <= k < self.users@[c]@.len() implies
                    #[trigger] self.users@[c]@[k] < e + 1 by {
                    if c != condition {
                        assert(table[c]@[k] < e + 1);
                    } else if k < listed.len() {
                        assert(table[c]@[k] < e + 1);
                    }
                }
            }
            k += 1;
        }
        proof {
            assert forall|p: int, c: i32|
                0 <= p < e + 1 && #[trigger] blocks@[p].exogenous_conditions@.contains(c) implies self.uses(
                c,
                p,
            ) by {
                if p == e {
                    let j = choose|j: int| 0 <= j < conditions@.len() && conditions@[j] == c;
                    assert(self.uses(conditions@[j], e as int));
                }
            }
        }
    }
}

/// The expression is the constant true.
pub open spec fn is_constant_true(e: PresampledExpression) -> bool {
    e.constant && e.exogenous_conditions@.len() == 0
}

/// The best parent so far, with its cost.
struct Contest {
    best: Option<usize>,
    cost: usize,
}

impl Contest {
    spec fn best_index(&self) -> Option<int> {
        match self.best {
            Some(p) => Some(p as int),
            None => None,
        }
    }

    spec fn leads(
        &self,
        blocks: Seq<PresampledExpression>,
        e: int,
        candidate: spec_fn(int) -> bool,
    ) -> bool {
        &&& cheapest(blocks, e, self.best_index(), candidate)
        &&& self.cost == match self.best {
            Some(p) => delta_cost(blocks[p as int], blocks[e]),
            None => root_cost(blocks[e]),
        }
    }

    /// Lets one more candidate compete.
    fn consider(
        &mut self,
        blocks: &Vec<PresampledExpression>,
        e: usize,
        p: usize,
        Ghost(candidate): Ghost<spec_fn(int) -> bool>,
    )
        requires
            p < e < blocks@.len(),
            canonical(blocks@[p as int].exogenous_conditions@),
            canonical(blocks@[e as int].exogenous_conditions@),
            old(self).leads(blocks@, e as int, candidate),
        ensures
            final(self).leads(blocks@, e as int, |q: int| candidate(q) || q == p),
    {
        let flip: bool = blocks[p].constant != blocks[e].constant;
        let ghost more = |q: int| candidate(q) || q == p;
        // An earlier parent wins a tie.
        let tie_wins: bool = match self.best {
            Some(b) => p < b,
            None => false,
        };
        proof {
            lemma_canonical_len(blocks@[e as int].exogenous_conditions@);
        }
        let bound: usize = if tie_wins {
            self.cost + 1
        } else {
            self.cost
        };
        match bounded_parent_delta_cost(
            &blocks[p].exogenous_conditions,
            &blocks[e].exogenous_conditions,
            flip,
            bound,
        ) {
            Some(cost) => {
                self.best = Some(p);
                self.cost = cost;
            },
            None => {},
        }
        proof {
            assert forall|q: int| 0 <= q < e && #[trigger] more(q) implies candidate(q) || q == p by {}
            match self.best {
                Some(b) => {
                    assert forall|q: int| 0 <= q < e && #[trigger] more(q) implies {
                        ||| delta_cost(blocks@[q], blocks@[e as int]) > delta_cost(
                            blocks@[b as int],
                            blocks@[e as int],
                        )
                        ||| delta_cost(blocks@[q], blocks@[e as int]) == delta_cost(
                            blocks@[b as int],
                            blocks@[e as int],
                        ) && q >= b
                    } by {
                        if q != p {
                            assert(candidate(q));
                        }
                    }
                },
                None => {},
            }
        }
    }
}

/// Picks the cheapest earlier expression for each block expression. Only genuine
/// contenders are looked at, which gives the same parents as looking at all.
pub fn prepare_block_expression_parent_deltas(blocks: &mut Vec<PresampledExpression>)
    requires
        forall|i: int|
            0 <= i < old(blocks)@.len() ==> canonical(
                (#[trigger] old(blocks)@[i]).exogenous_conditions@,
            ),
    ensures
        final(blocks)@.len() == old(blocks)@.len(),
        forall|i: int|
            0 <= i < old(blocks)@.len() ==> same_partial(
                #[trigger] final(blocks)@[i],
                old(blocks)@[i],
            ),
        forall|i: int|
            0 <= i < old(blocks)@.len() ==> parent_chosen(final(blocks)@, i) && (
            #[trigger] final(blocks)@[i]).exogenous_conditions@ == old(blocks)@[i].exogenous_conditions@,
{
    let ghost start = blocks@;
    let mut index: ConditionIndex = ConditionIndex { users: HashMap::new(), empty_true: None };
    let mut e: usize = 0;
    while e < blocks.len()
        invariant
            e <= blocks@.len(),
            blocks@.len() == start.len(),
            start == old(blocks)@,
            forall|i: int|
                0 <= i < start.len() ==> canonical((#[trigger] start[i]).exogenous_conditions@),
            forall|i: int|
                0 <= i < start.len() ==> same_partial(#[trigger] blocks@[i], start[i]),
            index.wf(blocks@, e as int),
            forall|i: int| 0 <= i < e ==> parent_chosen(#[trigger] with_index(blocks@, i).0, i),
        decreases blocks@.len() - e,
    {
        let ghost before = blocks@;
        proof {
            assert forall|i: int| 0 <= i < blocks@.len() implies canonical(
                (#[trigger] blocks@[i]).exogenous_conditions@,
            ) by {
                assert(same_partial(blocks@[i], start[i]));
                assert(canonical(start[i].exogenous_conditions@));
            }
            lemma_canonical_len(blocks@[e as int].exogenous_conditions@);
        }
        let contest: Contest = run_contest(blocks, e, &index);
        match contest.best {
            None => {
                let conditions: Vec<i32> = copy_conditions(&blocks[e].exogenous_conditions);
                let constant: bool = blocks[e].constant;
                blocks[e].parent_block_expression_index = None;
                blocks[e].parent_delta_constant = constant;
                blocks[e].parent_delta_exogenous_conditions = conditions;
            },
            Some(p) => {
                let conditions: Vec<i32> = symmetric_difference(
                    blocks[p].exogenous_conditions.as_slice(),
                    blocks[e].exogenous_conditions.as_slice(),
                );
                let flip: bool = blocks[p].constant != blocks[e].constant;
                proof {
                    let a = blocks@[p as int].exogenous_conditions@;
                    let b = blocks@[e as int].exogenous_conditions@;
                    lemma_delta(a, b);
                    lemma_ascending_unique(conditions@, delta(a, b));
                }
                blocks[e].parent_block_expression_index = Some(p);
                blocks[e].parent_delta_constant = flip;
                blocks[e].parent_delta_exogenous_conditions = conditions;
            },
        }
        proof {
            assert forall|i: int| 0 <= i < blocks@.len() implies same_partial(
                #[trigger] blocks@[i],
                before[i],
            ) by {}
            assert forall|i: int| 0 <= i < e + 1 implies parent_chosen(
                #[trigger] with_index(blocks@, i).0,
                i,
            ) by {
                if i < e {
                    assert(parent_chosen(with_index(before, i).0, i));
                    lemma_chosen_ext(before, blocks@, i);
                } else {
                    lemma_cheapest_ext(before, blocks@, e as int, contest.best_index());
                }
            }
            lemma_index_ext(index, before, blocks@, e as int);
        }
        index.add_expression(blocks, e);
        e += 1;
    }
    proof {
        assert forall|i: int| 0 <= i < start.len() implies parent_chosen(blocks@, i) && (
        #[trigger] blocks@[i]).exogenous_conditions@ == start[i].exogenous_conditions@ by {
            assert(parent_chosen(with_index(blocks@, i).0, i));
            assert(same_partial(blocks@[i], start[i]));
        }
    }
}

/// A sequence with an index into it.
spec fn with_index(blocks: Seq<PresampledExpression>, i: int) -> (Seq<PresampledExpression>, int) {
    (blocks, i)
}

proof fn lemma_cheapest_ext(
    before: Seq<PresampledExpression>,
    after: Seq<PresampledExpression>,
    e: int,
    parent: Option<int>,
)
    requires
        before.len() == after.len(),
        0 <= e < before.len(),
        forall|i: int| 0 <= i < before.len() ==> same_partial(#[trigger] after[i], before[i]),
        cheapest(before, e, parent, |q: int| true),
    ensures
        cheapest(after, e, parent, |q: int| true),
{
    let all = |q: int| true;
    assert forall|q: int| 0 <= q < before.len() implies #[trigger] delta_cost(after[q], after[e])
        == delta_cost(before[q], before[e]) by {
        assert(same_partial(after[q], before[q]));
        assert(same_partial(after[e], before[e]));
    }
    assert(same_partial(after[e], before[e]));
    match parent {
        None => {
            assert forall|q: int| 0 <= q < e && #[trigger] all(q) implies delta_cost(
                after[q],
                after[e],
            ) >= root_cost(after[e]) by {
                assert(delta_cost(after[q], after[e]) == delta_cost(before[q], before[e]));
                assert(all(q));
            }
        },
        Some(p) => {
            assert(delta_cost(after[p], after[e]) == delta_cost(before[p], before[e]));
            assert forall|q: int| 0 <= q < e && #[trigger] all(q) implies {
                ||| delta_cost(after[q], after[e]) > delta_cost(after[p], after[e])
                ||| delta_cost(after[q], after[e]) == delta_cost(after[p], after[e]) && q >= p
            } by {
                assert(delta_cost(after[q], after[e]) == delta_cost(before[q], before[e]));
                assert(all(q));
            }
        },
    }
}

proof fn lemma_chosen_ext(
    before: Seq<PresampledExpression>,
    after: Seq<PresampledExpression>,
    i: int,
)
    requires
        before.len() == after.len(),
        0 <= i < before.len(),
        forall|k: int| 0 <= k < before.len() ==> same_partial(#[trigger] after[k], before[k]),
        after[i] == before[i],
        parent_chosen(before, i),
    ensures
        parent_chosen(after, i),
{
    lemma_cheapest_ext(before, after, i, parent_of(before[i]));
    match parent_of(before[i]) {
        Some(p) => {
            assert(same_partial(after[p], before[p]));
        },
        None => {},
    }
}

proof fn lemma_index_ext(
    index: ConditionIndex,
    before: Seq<PresampledExpression>,
    after: Seq<PresampledExpression>,
    e: int,
)
    requires
        index.wf(before, e),
        before.len() == after.len(),
        forall|k: int| 0 <= k < before.len() ==> same_partial(#[trigger] after[k], before[k]),
    ensures
        index.wf(after, e),
{
    assert forall|p: int, c: i32|
        0 <= p < e && #[trigger] after[p].exogenous_conditions@.contains(c) implies index.uses(c, p) by {
        assert(same_partial(after[p], before[p]));
        assert(before[p].exogenous_conditions@.contains(c));
    }
    assert forall|q: int| 0 <= q < e && !is_constant_true(before[q]) implies !is_constant_true(
        #[trigger] after[q],
    ) by {
        assert(same_partial(after[q], before[q]));
    }
    match index.empty_true {
        Some(p) => {
            assert(same_partial(after[p as int], before[p as int]));
            assert forall|q: int| 0 <= q < p implies !is_constant_true(#[trigger] after[q]) by {
                assert(!is_constant_true(before[q]));
            }
        },
        None => {
            assert forall|q: int| 0 <= q < e implies !is_constant_true(#[trigger] after[q]) by {
                assert(!is_constant_true(before[q]));
            }
        },
    }
}

/// Finds the parent of one expression.
fn run_contest(
    blocks: &Vec<PresampledExpression>,
    e: usize,
    index: &ConditionIndex,
) -> (r: Contest)
    requires
        e < blocks@.len(),
        forall|i: int|
            0 <= i < blocks@.len() ==> canonical((#[trigger] blocks@[i]).exogenous_conditions@),
        index.wf(blocks@, e as int),
    ensures
        r.leads(blocks@, e as int, |q: int| true),
{
    proof {
        lemma_canonical_len(blocks@[e as int].exogenous_conditions@);
    }
    let conditions: &Vec<i32> = &blocks[e].exogenous_conditions;
    let extra: usize = if blocks[e].constant {
        1
    } else {
        0
    };
    let mut contest: Contest = Contest { best: None, cost: conditions.len() + extra };
    let ghost mut seen: spec_fn(int) -> bool = |q: int| false;
    let mut k: usize = 0;
    while k < conditions.len()
        invariant
            k <= conditions@.len(),
            e < blocks@.len(),
            conditions@ == blocks@[e as int].exogenous_conditions@,
            forall|i: int|
                0 <= i < blocks@.len() ==> canonical((#[trigger] blocks@[i]).exogenous_conditions@),
            index.wf(blocks@, e as int),
            contest.leads(blocks@, e as int, seen),
            forall|q: int, j: int|
                0 <= q < e && 0 <= j < k && index.uses(#[trigger] conditions@[j], q)
                    ==> #[trigger] seen(q),
        decreases conditions@.len() - k,
    {
        let condition: i32 = conditions[k];
        let ghost seen0 = seen;
        match index.users.get(&condition) {
            Some(list) => {
                let mut m: usize = 0;
                while m < list.len()
                    invariant
                        m <= list@.len(),
                        e < blocks@.len(),
                        index.users@.contains_key(condition),
                        list@ == index.users@[condition]@,
                        forall|i: int|
                            0 <= i < blocks@.len() ==> canonical(
                                (#[trigger] blocks@[i]).exogenous_conditions@,
                            ),
                        index.wf(blocks@, e as int),
                        contest.leads(blocks@, e as int, seen),
                        forall|q: int| seen0(q) ==> #[trigger] seen(q),
                        forall|j: int| 0 <= j < m ==> seen(#[trigger] list@[j] as int),
                    decreases list@.len() - m,
                {
                    let p: usize = list[m];
                    assert(index.users@[condition]@[m as int] < e);
                    contest.consider(blocks, e, p, Ghost(seen));
                    proof {
                        let before = seen;
                        seen = |q: int| before(q) || q == p;
                    }
                    m += 1;
                }
                proof {
                    assert forall|q: int, j: int|
                        0 <= q < e && 0 <= j < k + 1 && index.uses(
                            #[trigger] conditions@[j],
                            q,
                        ) implies #[trigger] seen(q) by {
                        if j == k {
                            let i = choose|i: int| 0 <= i < list@.len() && list@[i] == q as usize;
                            assert(seen(list@[i] as int));
                        } else {
                            assert(seen0(q));
                        }
                    }
                }
            },
            None => {},
        }
        k += 1;
    }
    if blocks[e].constant {
        if let Some(p) = index.empty_true {
            contest.consider(blocks, e, p, Ghost(seen));
            proof {
                let before = seen;
                seen = |q: int| before(q) || q == p;
            }
        }
    }
    proof {
        lemma_contest_complete(blocks@, e as int, *index, contest, seen);
    }
    contest
}

/// Whoever was not looked at does not undercut the root, or loses a tie.
proof fn lemma_contest_complete(
    blocks: Seq<PresampledExpression>,
    e: int,
    index: ConditionIndex,
    contest: Contest,
    seen: spec_fn(int) -> bool,
)
    requires
        0 <= e < blocks.len(),
        forall|i: int|
            0 <= i < blocks.len() ==> canonical((#[trigger] blocks[i]).exogenous_conditions@),
        index.wf(blocks, e),
        contest.leads(blocks, e, seen),
        forall|q: int, j: int|
            0 <= q < e && 0 <= j < blocks[e].exogenous_conditions@.len() && index.uses(
                #[trigger] blocks[e].exogenous_conditions@[j],
                q,
            ) ==> #[trigger] seen(q),
        blocks[e].constant && index.empty_true is Some ==> seen(index.empty_true->0 as int),
    ensures
        contest.leads(blocks, e, |q: int| true),
{
    let all = |q: int| true;
    let child = blocks[e];
    // A contender that was not seen is a constant true behind the first one.
    assert forall|q: int| 0 <= q < e && delta_cost(blocks[q], child) < root_cost(child) && !seen(
        q,
    ) implies child.constant && index.empty_true is Some && seen(index.empty_true->0 as int)
        && index.empty_true->0 < q && delta_cost(blocks[index.empty_true->0 as int], child)
        == #[trigger] delta_cost(blocks[q], child) by {
        lemma_contender(blocks[q], child);
        if exists|x: i32| #[trigger]
            blocks[q].exogenous_conditions@.contains(x) && child.exogenous_conditions@.contains(x) {
            let x = choose|x: i32| #[trigger]
                blocks[q].exogenous_conditions@.contains(x) && child.exogenous_conditions@.contains(
                    x,
                );
            let j = choose|j: int| 0 <= j < child.exogenous_conditions@.len()
                && child.exogenous_conditions@[j] == x;
            assert(index.uses(x, q));
            assert(seen(q));
        } else {
            assert(is_constant_true(blocks[q]));
            let p = index.empty_true->0 as int;
            assert(is_constant_true(blocks[p]));
            assert(blocks[p].exogenous_conditions@ =~= blocks[q].exogenous_conditions@);
            if q < p {
                assert(!is_constant_true(blocks[q]));
            }
        }
    }
    match contest.best_index() {
        None => {
            assert forall|q: int| 0 <= q < e && #[trigger] all(q) implies delta_cost(
                blocks[q],
                blocks[e],
            ) >= root_cost(blocks[e]) by {
                if delta_cost(blocks[q], child) < root_cost(child) {
                    if !seen(q) {
                        assert(seen(index.empty_true->0 as int));
                    }
                }
            }
        },
        Some(p) => {
            assert forall|q: int| 0 <= q < e && #[trigger] all(q) implies {
                ||| delta_cost(blocks[q], blocks[e]) > delta_cost(blocks[p], blocks[e])
                ||| delta_cost(blocks[q], blocks[e]) == delta_cost(blocks[p], blocks[e]) && q >= p
            } by {
                if !seen(q) && delta_cost(blocks[q], child) < root_cost(child) {
                    assert(seen(index.empty_true->0 as int));
                }
            }
        },
    }
}

// ---------------------------------------------------------------------------
// The plan
// ---------------------------------------------------------------------------
/// The instruction expression is the split of the instruction's bulk plan, or
/// blank where it has none.
pub open spec fn expresses(
    e: PresampledExpression,
    ins: FactoredInstruction,
    words: Seq<u64>,
) -> bool {
    match bulk_plan(ins) {
        Some(source) => is_split(e, source, words),
        None => is_blank(e),
    }
}

/// `last_use[b]` is the last instruction below `n` that refers to block `b`.
pub open spec fn last_uses(
    expressions: Seq<PresampledExpression>,
    last_use: Seq<i32>,
    blocks: int,
) -> bool {
    &&& last_use.len() == blocks
    &&& forall|b: int|
        0 <= b < blocks ==> {
            &&& 0 <= #[trigger] last_use[b] < expressions.len()
            &&& expressions[last_use[b] as int].block_expression_index == b
            &&& forall|i: int|
                last_use[b] < i < expressions.len() ==> (
                #[trigger] expressions[i]).block_expression_index != b
        }
}

/// Block indices are handed out in the order of first encounter.
pub open spec fn encounter_order(expressions: Seq<PresampledExpression>, blocks: int) -> bool {
    &&& forall|i: int|
        0 <= i < expressions.len() ==> (#[trigger] expressions[i]).block_expression_index < blocks
    &&& forall|i: int|
        0 <= i < expressions.len() ==> fresh_or_seen(expressions, #[trigger] nth(expressions, i).1)
}

/// The block index of instruction `i` occurred before, or is the next unused one.
pub open spec fn fresh_or_seen(expressions: Seq<PresampledExpression>, i: int) -> bool {
    let b = expressions[i].block_expression_index;
    ||| exists|k: int| 0 <= k < i && (#[trigger] expressions[k]).block_expression_index == b
    ||| {
        &&& forall|k: int| 0 <= k < i ==> (#[trigger] expressions[k]).block_expression_index < b
        &&& b == 0 || exists|k: int|
            0 <= k < i && (#[trigger] expressions[k]).block_expression_index == b - 1
    }
}

pub open spec fn nth(expressions: Seq<PresampledExpression>, i: int) -> (PresampledExpression, int) {
    (expressions[i], i)
}

/// The plan interns the exogenous partials of the program's instructions.
pub open spec fn plans_program(
    plan: PresampledExpressionPlan,
    program: &FactoredInstructionProgram,
    words: Seq<u64>,
) -> bool {
    let expressions = plan.instruction_expressions@;
    let blocks = plan.block_expressions@;
    &&& expressions.len() == program.instructions@.len()
    &&& forall|i: int|
        0 <= i < expressions.len() ==> {
            &&& expresses(#[trigger] expressions[i], program.instructions@[i], words)
            &&& expressions[i].block_expression_index < blocks.len()
            &&& same_partial(
                blocks[expressions[i].block_expression_index as int],
                expressions[i],
            )
        }
    &&& blocks.len() <= expressions.len()
    &&& partials_distinct(blocks)
    &&& encounter_order(expressions, blocks.len() as int)
    &&& last_uses(expressions, plan.block_expression_last_use_by_index@, blocks.len() as int)
    &&& forall|b: int|
        0 <= b < blocks.len() ==> canonical((#[trigger] blocks[b]).exogenous_conditions@)
            && parent_chosen(blocks, b)
}

/// Interns every instruction's exogenous partial and picks the parents.
pub fn prepare_presampled_expression_plan_from_words(
    out: &mut PresampledExpressionPlan,
    program: &FactoredInstructionProgram,
    exogenous_assigned_words: &Vec<u64>,
)
    requires
        program.wf(),
    ensures
        plans_program(*final(out), program, exogenous_assigned_words@),
{
    let ghost words = exogenous_assigned_words@;
    let mut expressions: Vec<PresampledExpression> = Vec::new();
    let mut blocks: Vec<PresampledExpression> = Vec::new();
    let mut last_use: Vec<i32> = Vec::new();
    let mut interner: ExogenousPartialInterner = ExogenousPartialInterner { buckets: HashMap::new() };
    let mut i: usize = 0;
    while i < program.instructions.len()
        invariant
            i <= program.instructions@.len(),
            program.wf(),
            words == exogenous_assigned_words@,
            expressions@.len() == i,
            blocks@.len() <= i,
            interner.wf(blocks@),
            partials_distinct(blocks@),
            forall|b: int|
                0 <= b < blocks@.len() ==> canonical((#[trigger] blocks@[b]).exogenous_conditions@),
            forall|k: int|
                0 <= k < i ==> {
                    &&& expresses(#[trigger] expressions@[k], program.instructions@[k], words)
                    &&& expressions@[k].block_expression_index < blocks@.len()
                    &&& same_partial(
                        blocks@[expressions@[k].block_expression_index as int],
                        expressions@[k],
                    )
                },
            encounter_order(expressions@, blocks@.len() as int),
            last_uses(expressions@, last_use@, blocks@.len() as int),
        decreases program.instructions@.len() - i,
    {
        assert(program.instructions@[i as int].wf());
        let mut expression: PresampledExpression = match instruction_expression_plan(
            &program.instructions[i],
        ) {
            None => blank_expression(),
            Some(source) => {
                let split: PresampledExpression = split_presampled_expression(
                    source,
                    exogenous_assigned_words,
                );
                proof {
                    lemma_selected(source.conditions@, words, true);
                }
                split
            },
        };
        let ghost blocks0 = blocks@;
        let ghost last0 = last_use@;
        let ghost expressions0 = expressions@;
        let block: usize = interner.intern(&mut blocks, &expression);
        expression.block_expression_index = block;
        if last_use.len() < blocks.len() {
            last_use.push(i as i32);
        } else {
            last_use[block] = i as i32;
        }
        let ghost added = expression;
        expressions.push(expression);
        proof {
            let n = blocks@.len() as int;
            assert forall|k: int| 0 <= k < blocks0.len() implies blocks@[k] == blocks0[k] by {
                if blocks@ != blocks0 {
                    assert(blocks@.take(block as int)[k] == blocks0[k]);
                }
            }
            assert forall|k: int| 0 <= k < i + 1 implies {
                &&& expresses(#[trigger] expressions@[k], program.instructions@[k], words)
                &&& expressions@[k].block_expression_index < blocks@.len()
                &&& same_partial(
                    blocks@[expressions@[k].block_expression_index as int],
                    expressions@[k],
                )
            } by {
                if k < i {
                    assert(expressions@[k] == expressions0[k]);
                } else {
                    assert(expressions@[k] == added);
                }
            }
            // Every block is referred to by the instruction that introduced it.
            assert forall|b: int| 0 <= b < n implies {
                &&& 0 <= #[trigger] last_use@[b] < expressions@.len()
                &&& expressions@[last_use@[b] as int].block_expression_index == b
                &&& forall|k: int|
                    last_use@[b] < k < expressions@.len() ==> (
                    #[trigger] expressions@[k]).block_expression_index != b
            } by {
                if b == block {
                    assert(last_use@[b] == i);
                    assert(expressions@[i as int] == added);
                } else {
                    assert(b < blocks0.len());
                    assert(last_use@[b] == last0[b]);
                    assert(0 <= last0[b] < expressions0.len());
                    assert(expressions@[last0[b] as int] == expressions0[last0[b] as int]);
                    assert forall|k: int| last0[b] < k < expressions@.len() implies (
                    #[trigger] expressions@[k]).block_expression_index != b by {
                        if k < i {
                            assert(expressions@[k] == expressions0[k]);
                        }
                    }
                }
            }
            assert forall|k: int| 0 <= k < expressions@.len() implies fresh_or_seen(
                expressions@,
                #[trigger] nth(expressions@, k).1,
            ) by {
                if k < i {
                    assert(fresh_or_seen(expressions0, nth(expressions0, k).1));
                    lemma_fresh_prefix(expressions0, expressions@, k);
                } else {
                    lemma_fresh_last(expressions@, blocks0.len() as int, last0, i as int);
                }
            }
            assert forall|k: int| 0 <= k < expressions@.len() implies (
            #[trigger] expressions@[k]).block_expression_index < n by {
                if k < i {
                    assert(expressions@[k] == expressions0[k]);
                }
            }
        }
        i += 1;
    }
    let ghost interned = blocks@;
    prepare_block_expression_parent_deltas(&mut blocks);
    proof {
        assert forall|k: int| 0 <= k < expressions@.len() implies {
            &&& expresses(#[trigger] expressions@[k], program.instructions@[k], words)
            &&& expressions@[k].block_expression_index < blocks@.len()
            &&& same_partial(
                blocks@[expressions@[k].block_expression_index as int],
                expressions@[k],
            )
        } by {
            let b = expressions@[k].block_expression_index as int;
            assert(same_partial(blocks@[b], interned[b]));
        }
        assert forall|a: int, b: int| 0 <= a < b < blocks@.len() implies !same_partial(
            #[trigger] blocks@[a],
            #[trigger] blocks@[b],
        ) by {
            assert(same_partial(blocks@[a], interned[a]));
            assert(same_partial(blocks@[b], interned[b]));
            assert(!same_partial(interned[a], interned[b]));
        }
        assert forall|b: int| 0 <= b < blocks@.len() implies canonical(
            (#[trigger] blocks@[b]).exogenous_conditions@,
        ) && parent_chosen(blocks@, b) by {
            assert(same_partial(blocks@[b], interned[b]));
            assert(canonical(interned[b].exogenous_conditions@));
        }
    }
    out.instruction_expressions = expressions;
    out.block_expressions = blocks;
    out.block_expression_last_use_by_index = last_use;
}

proof fn lemma_fresh_prefix(
    shorter: Seq<PresampledExpression>,
    longer: Seq<PresampledExpression>,
    k: int,
)
    requires
        0 <= k < shorter.len() <= longer.len(),
        forall|i: int| 0 <= i < shorter.len() ==> longer[i] == shorter[i],
        fresh_or_seen(shorter, k),
    ensures
        fresh_or_seen(longer, k),
{
    let b = shorter[k].block_expression_index;
    if exists|i: int| 0 <= i < k && (#[trigger] shorter[i]).block_expression_index == b {
        let i = choose|i: int| 0 <= i < k && (#[trigger] shorter[i]).block_expression_index == b;
        assert(longer[i].block_expression_index == b);
    } else {
        assert forall|i: int| 0 <= i < k implies (#[trigger] longer[i]).block_expression_index < b by {
            assert(shorter[i].block_expression_index < b);
        }
        if b != 0 {
            let i = choose|i: int|
                0 <= i < k && (#[trigger] shorter[i]).block_expression_index == b - 1;
            assert(longer[i].block_expression_index == b - 1);
        }
    }
}

proof fn lemma_fresh_last(
    expressions: Seq<PresampledExpression>,
    blocks: int,
    last_use: Seq<i32>,
    i: int,
)
    requires
        0 <= i < expressions.len(),
        blocks >= 0,
        last_uses(expressions.take(i), last_use, blocks),
        forall|k: int|
            0 <= k < i ==> (#[trigger] expressions[k]).block_expression_index < blocks,
        expressions[i].block_expression_index <= blocks,
    ensures
        fresh_or_seen(expressions, i),
{
    let b = expressions[i].block_expression_index as int;
    let earlier = expressions.take(i);
    if b < blocks {
        let k = last_use[b] as int;
        assert(earlier[k] == expressions[k]);
        assert(expressions[k].block_expression_index == b);
    } else if b > 0 {
        let k = last_use[b - 1] as int;
        assert(earlier[k] == expressions[k]);
        assert(expressions[k].block_expression_index == b - 1);
    }
}

/// Plans against a prepared table.
pub fn prepare_presampled_expression_plan(
    out: &mut PresampledExpressionPlan,
    program: &FactoredInstructionProgram,
    samples: &PackedPresampledExogenous,
) -> (r: Result<()>)
    requires
        program.wf(),
    ensures
        match r {
            Ok(_) => {
                &&& samples.nsymbols == program.nsymbols
                &&& samples.exogenous_assigned_words@.len() == words_for_bits(
                    program.nsymbols as int,
                )
                &&& plans_program(*final(out), program, samples.exogenous_assigned_words@)
            },
            Err(e) => {
                &&& samples.nsymbols != program.nsymbols
                    || samples.exogenous_assigned_words@.len() != words_for_bits(
                    program.nsymbols as int,
                )
                &&& *final(out) == *old(out)
                &&& e@ == "packed presampled exogenous storage was not prepared for this program"@
            },
        },
{
    if samples.nsymbols != program.nsymbols || samples.exogenous_assigned_words.len()
        != symbol_word_count(program.nsymbols) {
        return Err(
            TicitError::new("packed presampled exogenous storage was not prepared for this program"),
        );
    }
    prepare_presampled_expression_plan_from_words(out, program, &samples.exogenous_assigned_words);
    Ok(())
}

// ---------------------------------------------------------------------------
// Evaluation
// ---------------------------------------------------------------------------
/// The index of a word of a block expression.
pub fn presampled_expression_block_offset(
    block: &PresampledExpressionBlock,
    expression_index: usize,
    shot_word: usize,
) -> (r: usize)
    requires
        expression_index * block.shot_words + shot_word <= usize::MAX,
    ensures
        r == expression_index * block.shot_words + shot_word,
{
    plane_offset(block.shot_words, expression_index, shot_word)
}

/// The sampled values of one shot.
pub open spec fn shot_valuation(samples: PackedPresampledExogenous, i: int) -> spec_fn(i32) -> bool {
    |c: i32| samples.sample_bit(c, i)
}

/// A constant and a list of conditions, for one shot. The constant stops at the
/// last shot.
pub open spec fn partial_bit(
    samples: PackedPresampledExogenous,
    constant: bool,
    conditions: Seq<i32>,
    i: int,
) -> bool {
    (constant && i < samples.nshots) != xor_of(conditions, shot_valuation(samples, i))
}

/// The bit of a block expression along its chain of parents.
pub open spec fn chain_bit(
    blocks: Seq<PresampledExpression>,
    samples: PackedPresampledExogenous,
    e: int,
    i: int,
) -> bool
    decreases e,
{
    match parent_of(blocks[e]) {
        Some(p) => {
            let own = partial_bit(
                samples,
                blocks[e].parent_delta_constant,
                blocks[e].parent_delta_exogenous_conditions@,
                i,
            );
            if 0 <= p < e {
                chain_bit(blocks, samples, p, i) != own
            } else {
                own
            }
        },
        None => partial_bit(samples, blocks[e].constant, blocks[e].exogenous_conditions@, i),
    }
}

/// Following the parents gives the same bits as evaluating the expression itself.
pub proof fn law_parent_deltas_keep_the_value(
    blocks: Seq<PresampledExpression>,
    samples: PackedPresampledExogenous,
    e: int,
    i: int,
)
    requires
        0 <= e < blocks.len(),
        forall|b: int|
            0 <= b < blocks.len() ==> canonical((#[trigger] blocks[b]).exogenous_conditions@)
                && parent_chosen(blocks, b),
    ensures
        chain_bit(blocks, samples, e, i) == partial_bit(
            samples,
            blocks[e].constant,
            blocks[e].exogenous_conditions@,
            i,
        ),
    decreases e,
{
    assert(canonical(blocks[e].exogenous_conditions@) && parent_chosen(blocks, e));
    match parent_of(blocks[e]) {
        Some(p) => {
            law_parent_deltas_keep_the_value(blocks, samples, p, i);
            assert(canonical(blocks[p].exogenous_conditions@));
            lemma_delta_xor(
                blocks[p].exogenous_conditions@,
                blocks[e].exogenous_conditions@,
                shot_valuation(samples, i),
            );
        },
        None => {},
    }
}

/// The difference of two lists XORs to the XOR of both.
proof fn lemma_delta_xor(a: Seq<i32>, b: Seq<i32>, v: spec_fn(i32) -> bool)
    ensures
        xor_of(delta(a, b), v) == (xor_of(a, v) != xor_of(b, v)),
    decreases a.len() + b.len(),
{
    if a.len() == 0 || b.len() == 0 {
    } else {
        let x = seq![a[0]];
        let y = seq![b[0]];
        assert(a =~= x + a.skip(1));
        assert(b =~= y + b.skip(1));
        lemma_xor_of_concat(x, a.skip(1), v);
        lemma_xor_of_concat(y, b.skip(1), v);
        if a[0] < b[0] {
            lemma_delta_xor(a.skip(1), b, v);
            lemma_xor_of_concat(x, delta(a.skip(1), b), v);
        } else if b[0] < a[0] {
            lemma_delta_xor(a, b.skip(1), v);
            lemma_xor_of_concat(y, delta(a, b.skip(1)), v);
        } else {
            lemma_delta_xor(a.skip(1), b.skip(1), v);
            assert(x =~= y);
        }
    }
}

/// The conditions that are XORed into an expression's row.
pub open spec fn applied_conditions(e: PresampledExpression) -> Seq<i32> {
    match e.parent_block_expression_index {
        Some(_) => e.parent_delta_exogenous_conditions@,
        None => e.exogenous_conditions@,
    }
}

/// Every listed condition is a symbol of the table.
pub open spec fn in_table(conditions: Seq<i32>, nsymbols: int) -> bool {
    forall|k: int| 0 <= k < conditions.len() ==> 0 < #[trigger] conditions[k] <= nsymbols
}

/// Why a block expression cannot be evaluated, if it cannot.
pub open spec fn expression_refusal(
    blocks: Seq<PresampledExpression>,
    nsymbols: int,
    e: int,
) -> Option<Seq<char>> {
    if parent_of(blocks[e]) is Some && parent_of(blocks[e])->0 >= e {
        Some("presampled expression parent must be earlier in the block"@)
    } else if !in_table(applied_conditions(blocks[e]), nsymbols) {
        Some("presampled expression references an out-of-range exogenous condition"@)
    } else {
        None
    }
}

fn check_in_table(conditions: &Vec<i32>, nsymbols: usize) -> (r: bool)
    ensures
        r == in_table(conditions@, nsymbols as int),
{
    let mut k: usize = 0;
    while k < conditions.len()
        invariant
            k <= conditions@.len(),
            forall|j: int| 0 <= j < k ==> 0 < #[trigger] conditions@[j] <= nsymbols,
        decreases conditions@.len() - k,
    {
        if conditions[k] <= 0 || conditions[k] as usize > nsymbols {
            assert(!(0 < conditions@[k as int] <= nsymbols));
            return false;
        }
        k += 1;
    }
    true
}

/// Toggles one bit of a plane.
fn toggle_plane_bit(
    words: &mut Vec<u64>,
    stride: usize,
    plane: usize,
    shot: usize,
    Ghost(planes): Ghost<int>,
)
    requires
        old(words)@.len() == planes * stride,
        plane < planes,
        shot < 64 * stride,
    ensures
        final(words)@.len() == old(words)@.len(),
        forall|p: int, i: int|
            0 <= p < planes && 0 <= i < 64 * stride ==> #[trigger] plane_bit(
                final(words)@,
                stride as int,
                p,
                i,
            ) == (plane_bit(old(words)@, stride as int, p, i) != (p == plane && i == shot)),
{
    let word: usize = shot / 64;
    let lane: u64 = (shot % 64) as u64;
    let len: usize = words.len();
    proof {
        lemma_plane_index(stride as int, planes, plane as int, word as int);
    }
    let at: usize = plane_offset(stride, plane, word);
    let ghost before = words@;
    let w: u64 = words[at] ^ (1u64 << lane);
    words[at] = w;
    proof {
        assert forall|p: int, i: int| 0 <= p < planes && 0 <= i < 64 * stride implies #[trigger] plane_bit(
            words@,
            stride as int,
            p,
            i,
        ) == (plane_bit(before, stride as int, p, i) != (p == plane && i == shot)) by {
            lemma_plane_update(before, stride as int, planes, plane as int, word as int, w, p, i);
            if p == plane && i / 64 == word {
                assert(word_bit(w, i % 64) == (word_bit(before[at as int], i % 64) != word_bit(
                    1u64 << lane,
                    i % 64,
                )));
            }
        }
    }
}

/// XORs one condition into an expression's row.
fn xor_condition(
    words: &mut Vec<u64>,
    stride: usize,
    plane: usize,
    samples: &PackedPresampledExogenous,
    condition: i32,
    Ghost(planes): Ghost<int>,
)
    requires
        old(words)@.len() == planes * stride,
        plane < planes,
        stride == samples.shot_words,
        samples.wf(),
        samples.filled(),
        0 < condition <= samples.nsymbols,
    ensures
        final(words)@.len() == old(words)@.len(),
        forall|p: int, i: int|
            0 <= p < planes && 0 <= i < 64 * stride ==> #[trigger] plane_bit(
                final(words)@,
                stride as int,
                p,
                i,
            ) == (plane_bit(old(words)@, stride as int, p, i) != (p == plane && samples.sample_bit(
                condition,
                i,
            ))),
{
    let ghost start = words@;
    let ghost sw = stride as int;
    if samples.is_sparse_condition(condition) {
        let hits: &[u32] = samples.sparse_condition_hits(condition);
        let mut k: usize = 0;
        assert(hits@.take(0) =~= Seq::<u32>::empty());
        while k < hits.len()
            invariant
                k <= hits@.len(),
                sw == stride,
                stride == samples.shot_words,
                samples.wf(),
                samples.filled(),
                0 < condition <= samples.nsymbols,
                hits@ == samples.hits_of(condition),
                words@.len() == planes * stride,
                plane < planes,
                forall|p: int, i: int|
                    0 <= p < planes && 0 <= i < 64 * sw ==> #[trigger] plane_bit(words@, sw, p, i) == (
                    plane_bit(start, sw, p, i) != (p == plane && shot_parity(
                        hits@.take(k as int),
                        i,
                    ))),
            decreases hits@.len() - k,
        {
            let ghost before = words@;
            let shot: usize = hits[k] as usize;
            proof {
                let off = samples.sparse_hit_offsets@[condition - 1] as int;
                assert(samples.sparse_hit_shots@[off + k] == hits@[k as int]);
                assert(samples.sparse_hit_shots@[off + k] < samples.nshots);
            }
            toggle_plane_bit(words, stride, plane, shot, Ghost(planes));
            proof {
                let taken = hits@.take(k + 1);
                assert(taken.drop_last() =~= hits@.take(k as int));
                assert forall|p: int, i: int| 0 <= p < planes && 0 <= i < 64 * sw implies
                    #[trigger] plane_bit(words@, sw, p, i) == (plane_bit(start, sw, p, i) != (p
                    == plane && shot_parity(taken, i))) by {
                    assert(plane_bit(before, sw, p, i) == (plane_bit(start, sw, p, i) != (p == plane
                        && shot_parity(hits@.take(k as int), i))));
                }
            }
            k += 1;
        }
        assert(hits@.take(k as int) =~= hits@);
    } else {
        let row: usize = (condition - 1) as usize;
        let len: usize = words.len();
        let rows: usize = samples.value_words.len();
        let mut word: usize = 0;
        while word < stride
            invariant
                word <= stride,
                sw == stride,
                stride == samples.shot_words,
                samples.filled(),
                row == condition - 1,
                row < samples.nsymbols,
                len == words@.len(),
                rows == samples.value_words@.len(),
                words@.len() == planes * stride,
                plane < planes,
                forall|p: int, i: int|
                    0 <= p < planes && 0 <= i < 64 * sw ==> #[trigger] plane_bit(words@, sw, p, i) == (
                    plane_bit(start, sw, p, i) != (p == plane && i < 64 * word && plane_bit(
                        samples.value_words@,
                        sw,
                        row as int,
                        i,
                    ))),
            decreases stride - word,
        {
            let ghost before = words@;
            proof {
                lemma_plane_index(sw, planes, plane as int, word as int);
                lemma_plane_index(sw, samples.nsymbols as int, row as int, word as int);
            }
            let at: usize = plane_offset(stride, plane, word);
            let from: usize = plane_offset(stride, row, word);
            let v: u64 = samples.value_words[from];
            let w: u64 = words[at] ^ v;
            words[at] = w;
            proof {
                assert forall|p: int, i: int| 0 <= p < planes && 0 <= i < 64 * sw implies
                    #[trigger] plane_bit(words@, sw, p, i) == (plane_bit(start, sw, p, i) != (p
                    == plane && i < 64 * (word + 1) && plane_bit(
                    samples.value_words@,
                    sw,
                    row as int,
                    i,
                ))) by {
                    lemma_plane_update(before, sw, planes, plane as int, word as int, w, p, i);
                    assert(plane_bit(before, sw, p, i) == (plane_bit(start, sw, p, i) != (p == plane
                        && i < 64 * word && plane_bit(samples.value_words@, sw, row as int, i))));
                    if p == plane && i / 64 == word {
                        assert(word_bit(w, i % 64) == (word_bit(before[at as int], i % 64)
                            != word_bit(v, i % 64)));
                        assert(plane_bit(samples.value_words@, sw, row as int, i) == word_bit(
                            v,
                            i % 64,
                        ));
                    }
                }
            }
            word += 1;
        }
    }
}

/// Starts an expression's row from its parent and the constant.
fn start_row(
    words: &mut Vec<u64>,
    stride: usize,
    plane: usize,
    parent: Option<usize>,
    constant: bool,
    nshots: usize,
    Ghost(planes): Ghost<int>,
)
    requires
        old(words)@.len() == planes * stride,
        plane < planes,
        match parent {
            Some(p) => p < plane,
            None => true,
        },
    ensures
        final(words)@.len() == old(words)@.len(),
        forall|p: int, i: int|
            0 <= p < planes && 0 <= i < 64 * stride ==> #[trigger] plane_bit(
                final(words)@,
                stride as int,
                p,
                i,
            ) == if p == plane {
                (parent is Some && plane_bit(
                    old(words)@,
                    stride as int,
                    parent->0 as int,
                    i,
                )) != (constant && i < nshots)
            } else {
                plane_bit(old(words)@, stride as int, p, i)
            },
{
    let ghost start = words@;
    let ghost sw = stride as int;
    let len: usize = words.len();
    let mut word: usize = 0;
    while word < stride
        invariant
            word <= stride,
            sw == stride,
            len == words@.len(),
            words@.len() == planes * stride,
            plane < planes,
            match parent {
                Some(p) => p < plane,
                None => true,
            },
            forall|p: int, i: int|
                0 <= p < planes && 0 <= i < 64 * sw ==> #[trigger] plane_bit(words@, sw, p, i) == if p
                    == plane && i < 64 * word {
                    (parent is Some && plane_bit(start, sw, parent->0 as int, i)) != (constant && i
                        < nshots)
                } else {
                    plane_bit(start, sw, p, i)
                },
        decreases stride - word,
    {
        let ghost before = words@;
        proof {
            lemma_plane_index(sw, planes, plane as int, word as int);
        }
        let base: u64 = match parent {
            Some(p) => {
                proof {
                    lemma_plane_index(sw, planes, p as int, word as int);
                }
                words[plane_offset(stride, p, word)]
            },
            None => 0,
        };
        let live: u64 = live_word_mask_for_shots(nshots, word);
        let w: u64 = if constant {
            base ^ live
        } else {
            base
        };
        let at: usize = plane_offset(stride, plane, word);
        words[at] = w;
        proof {
            assert forall|p: int, i: int| 0 <= p < planes && 0 <= i < 64 * sw implies #[trigger] plane_bit(
                words@,
                sw,
                p,
                i,
            ) == if p == plane && i < 64 * (word + 1) {
                (parent is Some && plane_bit(start, sw, parent->0 as int, i)) != (constant && i
                    < nshots)
            } else {
                plane_bit(start, sw, p, i)
            } by {
                lemma_plane_update(before, sw, planes, plane as int, word as int, w, p, i);
                assert(plane_bit(before, sw, p, i) == if p == plane && i < 64 * word {
                    (parent is Some && plane_bit(start, sw, parent->0 as int, i)) != (constant && i
                        < nshots)
                } else {
                    plane_bit(start, sw, p, i)
                });
                if p == plane && i / 64 == word {
                    assert(word_bit(base ^ live, i % 64) == (word_bit(base, i % 64) != word_bit(
                        live,
                        i % 64,
                    )));
                    assert(word_bit(live, i % 64) == (64 * word + i % 64 < nshots));
                    assert(64 * word + i % 64 == i);
                    match parent {
                        Some(q) => {
                            assert(plane_bit(before, sw, q as int, i) == plane_bit(
                                start,
                                sw,
                                q as int,
                                i,
                            ));
                        },
                        None => {},
                    }
                }
            }
        }
        word += 1;
    }
}

/// Evaluates every block expression for every shot of the table.
#[verifier::rlimit(40)]
pub fn evaluate_presampled_expression_block(
    out: &mut PresampledExpressionBlock,
    plan: &PresampledExpressionPlan,
    samples: &PackedPresampledExogenous,
) -> (r: Result<()>)
    requires
        samples.wf(),
        samples.nsymbols < usize::MAX,
        samples.nsymbols * samples.shot_words <= usize::MAX,
        plan.block_expressions@.len() * samples.shot_words <= usize::MAX,
    ensures
        match r {
            Ok(_) => {
                &&& samples.filled()
                &&& final(out).nshots == samples.nshots
                &&& final(out).shot_words == samples.shot_words
                &&& final(out).expression_words@.len() == plan.block_expressions@.len()
                    * samples.shot_words
                &&& forall|e: int|
                    0 <= e < plan.block_expressions@.len() ==> expression_refusal(
                        plan.block_expressions@,
                        samples.nsymbols as int,
                        #[trigger] nth(plan.block_expressions@, e).1,
                    ) is None
                &&& forall|e: int, i: int|
                    0 <= e < plan.block_expressions@.len() && 0 <= i < 64 * samples.shot_words
                        ==> #[trigger] plane_bit(
                        final(out).expression_words@,
                        samples.shot_words as int,
                        e,
                        i,
                    ) == chain_bit(plan.block_expressions@, *samples, e, i)
            },
            Err(err) => {
                ||| !samples.filled() && *final(out) == *old(out) && err@
                    == "packed presampled exogenous values are not initialized"@
                ||| samples.filled() && exists|e: int|
                    0 <= e < plan.block_expressions@.len() && expression_refusal(
                        plan.block_expressions@,
                        samples.nsymbols as int,
                        #[trigger] nth(plan.block_expressions@, e).1,
                    ) == Some(err@) && forall|k: int|
                        0 <= k < e ==> expression_refusal(
                            plan.block_expressions@,
                            samples.nsymbols as int,
                            #[trigger] nth(plan.block_expressions@, k).1,
                        ) is None
            },
        },
{
    let ghost sw = samples.shot_words as int;
    let ghost planes = plan.block_expressions@.len() as int;
    let ghost blocks = plan.block_expressions@;
    assert(0 <= samples.nsymbols * samples.shot_words) by (nonlinear_arith);
    assert(0 <= planes * sw) by (nonlinear_arith)
        requires
            0 <= planes,
            0 <= sw,
    ;
    if samples.value_words.len() != samples.nsymbols * samples.shot_words
        || samples.sparse_hit_offsets.len() != samples.nsymbols + 1 {
        return Err(TicitError::new("packed presampled exogenous values are not initialized"));
    }
    let nexpressions: usize = plan.block_expressions.len();
    let total: usize = nexpressions * samples.shot_words;
    let stride: usize = samples.shot_words;
    out.nshots = samples.nshots;
    out.shot_words = stride;
    resize_words(&mut out.expression_words, total);
    let mut e: usize = 0;
    while e < nexpressions
        invariant
            e <= nexpressions,
            nexpressions == planes,
            blocks == plan.block_expressions@,
            planes == blocks.len(),
            sw == stride,
            stride == samples.shot_words,
            samples.wf(),
            samples.filled(),
            out.nshots == samples.nshots,
            out.shot_words == stride,
            out.expression_words@.len() == planes * sw,
            forall|k: int|
                0 <= k < e ==> expression_refusal(
                    blocks,
                    samples.nsymbols as int,
                    #[trigger] nth(blocks, k).1,
                ) is None,
            forall|k: int, i: int|
                0 <= k < e && 0 <= i < 64 * sw ==> #[trigger] plane_bit(
                    out.expression_words@,
                    sw,
                    k,
                    i,
                ) == chain_bit(blocks, *samples, k, i),
        decreases nexpressions - e,
    {
        let expression: &PresampledExpression = &plan.block_expressions[e];
        assert(nth(blocks, e as int).1 == e);
        if let Some(p) = expression.parent_block_expression_index {
            if p >= e {
                return Err(
                    TicitError::new("presampled expression parent must be earlier in the block"),
                );
            }
        }
        let constant: bool = match expression.parent_block_expression_index {
            Some(_) => expression.parent_delta_constant,
            None => expression.constant,
        };
        let conditions: &Vec<i32> = match expression.parent_block_expression_index {
            Some(_) => &expression.parent_delta_exogenous_conditions,
            None => &expression.exogenous_conditions,
        };
        if !check_in_table(conditions, samples.nsymbols) {
            return Err(
                TicitError::new(
                    "presampled expression references an out-of-range exogenous condition",
                ),
            );
        }
        let ghost before = out.expression_words@;
        start_row(
            &mut out.expression_words,
            stride,
            e,
            expression.parent_block_expression_index,
            constant,
            samples.nshots,
            Ghost(planes),
        );
        let ghost begun = out.expression_words@;
        let mut k: usize = 0;
        assert(conditions@.take(0) =~= Seq::<i32>::empty());
        while k < conditions.len()
            invariant
                k <= conditions@.len(),
                e < planes,
                sw == stride,
                stride == samples.shot_words,
                samples.wf(),
                samples.filled(),
                out.nshots == samples.nshots,
                out.shot_words == stride,
                in_table(conditions@, samples.nsymbols as int),
                out.expression_words@.len() == planes * sw,
                forall|p: int, i: int|
                    0 <= p < planes && 0 <= i < 64 * sw ==> #[trigger] plane_bit(
                        out.expression_words@,
                        sw,
                        p,
                        i,
                    ) == (plane_bit(begun, sw, p, i) != (p == e && xor_of(
                        conditions@.take(k as int),
                        shot_valuation(*samples, i),
                    ))),
            decreases conditions@.len() - k,
        {
            let ghost mid = out.expression_words@;
            let condition: i32 = conditions[k];
            assert(0 < conditions@[k as int] <= samples.nsymbols);
            xor_condition(
                &mut out.expression_words,
                stride,
                e,
                samples,
                condition,
                Ghost(planes),
            );
            proof {
                let taken = conditions@.take(k + 1);
                assert(taken.drop_last() =~= conditions@.take(k as int));
                assert forall|p: int, i: int| 0 <= p < planes && 0 <= i < 64 * sw implies
                    #[trigger] plane_bit(out.expression_words@, sw, p, i) == (plane_bit(
                    begun,
                    sw,
                    p,
                    i,
                ) != (p == e && xor_of(taken, shot_valuation(*samples, i)))) by {
                    assert(plane_bit(mid, sw, p, i) == (plane_bit(begun, sw, p, i) != (p == e
                        && xor_of(conditions@.take(k as int), shot_valuation(*samples, i)))));
                }
            }
            k += 1;
        }
        proof {
            assert(conditions@.take(k as int) =~= conditions@);
            assert forall|p: int, i: int| 0 <= p < e + 1 && 0 <= i < 64 * sw implies #[trigger] plane_bit(
                out.expression_words@,
                sw,
                p,
                i,
            ) == chain_bit(blocks, *samples, p, i) by {
                assert(plane_bit(begun, sw, p, i) == plane_bit(begun, sw, p, i));
                if p < e {
                    assert(plane_bit(before, sw, p, i) == chain_bit(blocks, *samples, p, i));
                } else {
                    match parent_of(blocks[e as int]) {
                        Some(q) => {
                            assert(plane_bit(before, sw, q, i) == chain_bit(blocks, *samples, q, i));
                        },
                        None => {},
                    }
                }
            }
        }
        e += 1;
    }
    Ok(())
}

fn resize_words(words: &mut Vec<u64>, len: usize)
    ensures
        final(words)@.len() == len,
{
    while words.len() > len
        invariant
            true,
        decreases words@.len(),
    {
        words.pop();
    }
    while words.len() < len
        invariant
            words@.len() <= len,
        decreases len - words@.len(),
    {
        words.push(0);
    }
}

} // verus!
