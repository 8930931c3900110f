//! Symbolic booleans: XOR expressions over condition symbols that stand for
//! not-yet-sampled random bits.
//!
//! Condition ids are 1-based and dense: symbol `c` occupies bit `c - 1` of the
//! per-shot symbol bitset, so `next_condition - 1` is the number of symbols a
//! plan must allocate. The condition list of an expression is strictly
//! ascending and duplicate-free. In that form two expressions are equal exactly
//! when they agree under every valuation of the symbols
//! ([`law_canonical_form_is_semantic`]).
use std::collections::{BTreeMap, HashMap};
use vstd::prelude::*;
use crate::bits::{
    bit_word_count, lemma_parity_join, lemma_word_parity_zero,
    row_bit, symbol_bit, symbol_bit_mask, symbol_bit_offset, symbol_word_index, word_bit, word_parity,
    words_for_bits,
};
use crate::errors::{push_decimal, decimal, Result, TicitError};

verus! {

broadcast use {
    vstd::std_specs::hash::group_hash_axioms,
    vstd::std_specs::btree::group_btree_axioms,
    crate::bits::group_word_bits,
};

// ---------------------------------------------------------------------------
// Condition lists
// ---------------------------------------------------------------------------
/// Strictly ascending, hence duplicate-free.
pub open spec fn strictly_ascending(c: Seq<i32>) -> bool {
    forall|i: int, j: int| 0 <= i < j < c.len() ==> c[i] < c[j]
}

pub open spec fn all_positive(c: Seq<i32>) -> bool {
    forall|i: int| 0 <= i < c.len() ==> 0 < #[trigger] c[i]
}

/// The form every condition list is kept in.
pub open spec fn canonical(c: Seq<i32>) -> bool {
    strictly_ascending(c) && all_positive(c)
}

/// The XOR of the listed symbols under the valuation `v`.
pub open spec fn xor_of(c: Seq<i32>, v: spec_fn(i32) -> bool) -> bool
    decreases c.len(),
{
    if c.len() == 0 {
        false
    } else {
        xor_of(c.drop_last(), v) != v(c.last())
    }
}

/// Whether `x` occurs an odd number of times.
pub open spec fn odd_multiplicity(c: Seq<i32>, x: i32) -> bool {
    xor_of(c, |y: i32| y == x)
}

pub proof fn lemma_xor_of_push(c: Seq<i32>, x: i32, v: spec_fn(i32) -> bool)
    ensures
        xor_of(c.push(x), v) == (xor_of(c, v) != v(x)),
{
    assert(c.push(x).drop_last() =~= c);
}

pub proof fn lemma_xor_of_concat(a: Seq<i32>, b: Seq<i32>, v: spec_fn(i32) -> bool)
    ensures
        xor_of(a + b, v) == (xor_of(a, v) != xor_of(b, v)),
    decreases b.len(),
{
    if b.len() == 0 {
        assert(a + b =~= a);
    } else {
        assert((a + b).drop_last() =~= a + b.drop_last());
        lemma_xor_of_concat(a, b.drop_last(), v);
    }
}

pub proof fn lemma_xor_of_ext(c: Seq<i32>, v: spec_fn(i32) -> bool, w: spec_fn(i32) -> bool)
    requires
        forall|i: int| 0 <= i < c.len() ==> v(#[trigger] c[i]) == w(c[i]),
    ensures
        xor_of(c, v) == xor_of(c, w),
    decreases c.len(),
{
    if c.len() > 0 {
        assert forall|i: int| 0 <= i < c.drop_last().len() implies v(#[trigger] c.drop_last()[i]) == w(
            c.drop_last()[i],
        ) by {
            assert(c.drop_last()[i] == c[i]);
        }
        lemma_xor_of_ext(c.drop_last(), v, w);
        assert(v(c[c.len() - 1]) == w(c[c.len() - 1]));
    }
}

/// The XOR under the exclusive or of two valuations.
pub proof fn lemma_xor_of_valuations(
    c: Seq<i32>,
    u: spec_fn(i32) -> bool,
    v: spec_fn(i32) -> bool,
    w: spec_fn(i32) -> bool,
)
    requires
        forall|i: int| 0 <= i < c.len() ==> w(#[trigger] c[i]) == (u(c[i]) != v(c[i])),
    ensures
        xor_of(c, w) == (xor_of(c, u) != xor_of(c, v)),
    decreases c.len(),
{
    if c.len() > 0 {
        assert forall|i: int| 0 <= i < c.drop_last().len() implies w(#[trigger] c.drop_last()[i]) == (u(
            c.drop_last()[i],
        ) != v(c.drop_last()[i])) by {
            assert(c.drop_last()[i] == c[i]);
        }
        lemma_xor_of_valuations(c.drop_last(), u, v, w);
        assert(w(c[c.len() - 1]) == (u(c[c.len() - 1]) != v(c[c.len() - 1])));
    }
}

/// In a strictly ascending list a symbol occurs an odd number of times exactly
/// when it occurs.
pub proof fn lemma_ascending_odd(c: Seq<i32>, x: i32)
    requires
        strictly_ascending(c),
    ensures
        odd_multiplicity(c, x) == c.contains(x),
    decreases c.len(),
{
    if c.len() > 0 {
        let d = c.drop_last();
        lemma_ascending_odd(d, x);
        if d.contains(x) {
            let i = choose|i: int| 0 <= i < d.len() && d[i] == x;
            assert(c[i] == x);
            assert(c[i] < c[c.len() - 1]);
        }
        if c.contains(x) && c.last() != x {
            let i = choose|i: int| 0 <= i < c.len() && c[i] == x;
            assert(d[i] == x);
        }
        if c.last() == x {
            assert(c[c.len() - 1] == x);
        }
    }
}

/// A strictly ascending list is determined by its members.
pub proof fn lemma_ascending_unique(a: Seq<i32>, b: Seq<i32>)
    requires
        strictly_ascending(a),
        strictly_ascending(b),
        forall|x: i32| a.contains(x) == b.contains(x),
    ensures
        a == b,
    decreases a.len() + b.len(),
{
    if a.len() == 0 {
        if b.len() > 0 {
            assert(b.contains(b[0]));
            assert(a.contains(b[0]));
        }
        assert(a =~= b);
    } else if b.len() == 0 {
        assert(a.contains(a[0]));
        assert(b.contains(a[0]));
    } else {
        let x = a.last();
        let y = b.last();
        assert(a[a.len() - 1] == x && b[b.len() - 1] == y);
        assert(a.contains(x) && b.contains(y));
        let i = choose|i: int| 0 <= i < b.len() && b[i] == x;
        let j = choose|j: int| 0 <= j < a.len() && a[j] == y;
        assert(b.contains(x) && a.contains(y));
        assert(x <= y) by {
            if i < b.len() - 1 {
                assert(b[i] < b[b.len() - 1]);
            }
        }
        assert(y <= x) by {
            if j < a.len() - 1 {
                assert(a[j] < a[a.len() - 1]);
            }
        }
        let c = a.drop_last();
        let d = b.drop_last();
        assert forall|z: i32| c.contains(z) == d.contains(z) by {
            if c.contains(z) {
                let k = choose|k: int| 0 <= k < c.len() && c[k] == z;
                assert(a[k] == z && a[k] < a[a.len() - 1]);
                assert(a.contains(z));
                let m = choose|m: int| 0 <= m < b.len() && b[m] == z;
                assert(b.contains(z));
                assert(m < b.len() - 1);
                assert(d[m] == z);
            }
            if d.contains(z) {
                let k = choose|k: int| 0 <= k < d.len() && d[k] == z;
                assert(b[k] == z && b[k] < b[b.len() - 1]);
                assert(b.contains(z));
                let m = choose|m: int| 0 <= m < a.len() && a[m] == z;
                assert(a.contains(z));
                assert(m < a.len() - 1);
                assert(c[m] == z);
            }
        }
        lemma_ascending_unique(c, d);
        assert(a =~= c.push(x));
        assert(b =~= d.push(y));
    }
}

/// Ascending lists that agree under every valuation are equal.
pub proof fn lemma_ascending_semantic(a: Seq<i32>, b: Seq<i32>)
    requires
        strictly_ascending(a),
        strictly_ascending(b),
        forall|v: spec_fn(i32) -> bool| #[trigger] xor_of(a, v) == xor_of(b, v),
    ensures
        a == b,
{
    assert forall|x: i32| a.contains(x) == b.contains(x) by {
        lemma_ascending_odd(a, x);
        lemma_ascending_odd(b, x);
        let v = |y: i32| y == x;
        assert(xor_of(a, v) == xor_of(b, v));
    }
    lemma_ascending_unique(a, b);
}

/// Merges two ascending lists into their symmetric difference.
pub fn symmetric_difference(lhs: &[i32], rhs: &[i32]) -> (r: Vec<i32>)
    requires
        strictly_ascending(lhs@),
        strictly_ascending(rhs@),
    ensures
        strictly_ascending(r@),
        forall|v: spec_fn(i32) -> bool|
            #[trigger] xor_of(r@, v) == (xor_of(lhs@, v) != xor_of(rhs@, v)),
        forall|x: i32| #[trigger] r@.contains(x) == (lhs@.contains(x) != rhs@.contains(x)),
{
    let mut out: Vec<i32> = Vec::new();
    let mut i: usize = 0;
    let mut j: usize = 0;
    assert(lhs@.take(0) =~= Seq::<i32>::empty());
    assert(rhs@.take(0) =~= Seq::<i32>::empty());
    while i < lhs.len() || j < rhs.len()
        invariant
            i <= lhs@.len(),
            j <= rhs@.len(),
            strictly_ascending(lhs@),
            strictly_ascending(rhs@),
            strictly_ascending(out@),
            forall|k: int| 0 <= k < out@.len() && i < lhs@.len() ==> #[trigger] out@[k] < lhs@[i as int],
            forall|k: int| 0 <= k < out@.len() && j < rhs@.len() ==> #[trigger] out@[k] < rhs@[j as int],
            forall|v: spec_fn(i32) -> bool|
                #[trigger] xor_of(out@, v) == (xor_of(lhs@.take(i as int), v) != xor_of(
                    rhs@.take(j as int),
                    v,
                )),
        decreases (lhs@.len() - i) + (rhs@.len() - j),
    {
        let ghost before = out@;
        let ghost i0 = i as int;
        let ghost j0 = j as int;
        if j >= rhs.len() || (i < lhs.len() && lhs[i] < rhs[j]) {
            out.push(lhs[i]);
            i += 1;
        } else if i >= lhs.len() || rhs[j] < lhs[i] {
            out.push(rhs[j]);
            j += 1;
        } else {
            i += 1;
            j += 1;
        }
        proof {
            if i > i0 {
                assert(lhs@.take(i as int) =~= lhs@.take(i0).push(lhs@[i0]));
            }
            if j > j0 {
                assert(rhs@.take(j as int) =~= rhs@.take(j0).push(rhs@[j0]));
            }
            assert forall|v: spec_fn(i32) -> bool|
                #[trigger] xor_of(out@, v) == (xor_of(lhs@.take(i as int), v) != xor_of(
                    rhs@.take(j as int),
                    v,
                )) by {
                assert(xor_of(before, v) == (xor_of(lhs@.take(i0), v) != xor_of(rhs@.take(j0), v)));
                if i > i0 {
                    lemma_xor_of_push(lhs@.take(i0), lhs@[i0], v);
                }
                if j > j0 {
                    lemma_xor_of_push(rhs@.take(j0), rhs@[j0], v);
                }
                if out@.len() > before.len() {
                    lemma_xor_of_push(before, out@.last(), v);
                }
            }
        }
    }
    proof {
        assert(lhs@.take(i as int) =~= lhs@);
        assert(rhs@.take(j as int) =~= rhs@);
        assert forall|x: i32| #[trigger] out@.contains(x) == (lhs@.contains(x) != rhs@.contains(x)) by {
            lemma_ascending_odd(out@, x);
            lemma_ascending_odd(lhs@, x);
            lemma_ascending_odd(rhs@, x);
            let v = |y: i32| y == x;
            assert(xor_of(out@, v) == (xor_of(lhs@, v) != xor_of(rhs@, v)));
        }
    }
    out
}

/// Sorts `conditions[lo..hi]` and drops entries of even multiplicity.
fn normalize_range(conditions: &[i32], lo: usize, hi: usize) -> (r: Vec<i32>)
    requires
        lo <= hi <= conditions@.len(),
    ensures
        strictly_ascending(r@),
        forall|v: spec_fn(i32) -> bool|
            #[trigger] xor_of(r@, v) == xor_of(conditions@.subrange(lo as int, hi as int), v),
    decreases hi - lo,
{
    if hi == lo {
        let r: Vec<i32> = Vec::new();
        assert(conditions@.subrange(lo as int, hi as int) =~= r@);
        return r;
    }
    if hi - lo == 1 {
        let mut r: Vec<i32> = Vec::new();
        r.push(conditions[lo]);
        assert(conditions@.subrange(lo as int, hi as int) =~= r@);
        return r;
    }
    let mid: usize = lo + (hi - lo) / 2;
    let left: Vec<i32> = normalize_range(conditions, lo, mid);
    let right: Vec<i32> = normalize_range(conditions, mid, hi);
    let r: Vec<i32> = symmetric_difference(left.as_slice(), right.as_slice());
    proof {
        let l = conditions@.subrange(lo as int, mid as int);
        let m = conditions@.subrange(mid as int, hi as int);
        assert(conditions@.subrange(lo as int, hi as int) =~= l + m);
        assert forall|v: spec_fn(i32) -> bool|
            #[trigger] xor_of(r@, v) == xor_of(conditions@.subrange(lo as int, hi as int), v) by {
            lemma_xor_of_concat(l, m, v);
            assert(xor_of(left@, v) == xor_of(l, v));
            assert(xor_of(right@, v) == xor_of(m, v));
        }
    }
    r
}

/// Sorts condition ids and drops entries of even multiplicity, since a symbol
/// cancels against itself.
pub fn normalize_conditions(conditions: &[i32]) -> (r: Vec<i32>)
    requires
        all_positive(conditions@),
    ensures
        canonical(r@),
        forall|v: spec_fn(i32) -> bool| #[trigger] xor_of(r@, v) == xor_of(conditions@, v),
        forall|x: i32| #[trigger] r@.contains(x) == odd_multiplicity(conditions@, x),
{
    let r: Vec<i32> = normalize_range(conditions, 0, conditions.len());
    proof {
        assert(conditions@.subrange(0, conditions@.len() as int) =~= conditions@);
        assert forall|x: i32| #[trigger] r@.contains(x) == odd_multiplicity(conditions@, x) by {
            lemma_ascending_odd(r@, x);
            let v = |y: i32| y == x;
            assert(xor_of(r@, v) == xor_of(conditions@, v));
        }
        assert forall|i: int| 0 <= i < r@.len() implies 0 < #[trigger] r@[i] by {
            assert(r@.contains(r@[i]));
            lemma_odd_occurs(conditions@, r@[i]);
        }
    }
    r
}

/// What occurs an odd number of times occurs.
pub proof fn lemma_odd_occurs(c: Seq<i32>, x: i32)
    requires
        odd_multiplicity(c, x),
    ensures
        c.contains(x),
    decreases c.len(),
{
    if c.last() == x {
        assert(c[c.len() - 1] == x);
    } else {
        lemma_odd_occurs(c.drop_last(), x);
        let i = choose|i: int| 0 <= i < c.drop_last().len() && c.drop_last()[i] == x;
        assert(c[i] == x);
    }
}

// ---------------------------------------------------------------------------
// Expressions
// ---------------------------------------------------------------------------
/// `constant XOR s_{c_1} XOR ... XOR s_{c_n}`.
#[derive(Clone, Debug, PartialEq, Eq)]
pub struct SymbolicBool {
    pub constant: bool,
    pub conditions: Vec<i32>,
}

impl SymbolicBool {
    /// The condition list is in canonical form.
    pub open spec fn wf(&self) -> bool {
        canonical(self.conditions@)
    }

    /// The value of the expression under the valuation `v`.
    pub open spec fn value(&self, v: spec_fn(i32) -> bool) -> bool {
        self.constant != xor_of(self.conditions@, v)
    }

    /// Equality of the fields.
    pub open spec fn same(&self, other: &SymbolicBool) -> bool {
        self.constant == other.constant && self.conditions@ == other.conditions@
    }

    /// Builds an expression, normalizing `conditions` (sort, then drop
    /// even-multiplicity entries since `s ^ s == 0`).
    pub fn new(constant: bool, conditions: Vec<i32>) -> (r: Self)
        requires
            all_positive(conditions@),
        ensures
            r.wf(),
            r.constant == constant,
            forall|x: i32| #[trigger] r.conditions@.contains(x) == odd_multiplicity(conditions@, x),
            forall|v: spec_fn(i32) -> bool|
                #[trigger] r.value(v) == (constant != xor_of(conditions@, v)),
    {
        let r = SymbolicBool {
            constant,
            conditions: normalize_conditions(conditions.as_slice()),
        };
        assert forall|v: spec_fn(i32) -> bool|
            #[trigger] r.value(v) == (constant != xor_of(conditions@, v)) by {
            assert(xor_of(r.conditions@, v) == xor_of(conditions@, v));
        }
        r
    }

    /// Largest condition id in the expression, or 0 when it has none.
    pub fn max_condition(&self) -> (r: i32)
        requires
            self.wf(),
        ensures
            self.conditions@.len() == 0 ==> r == 0,
            self.conditions@.len() > 0 ==> self.conditions@.contains(r),
            forall|i: int| 0 <= i < self.conditions@.len() ==> #[trigger] self.conditions@[i] <= r,
    {
        if self.conditions.len() == 0 {
            0
        } else {
            self.conditions[self.conditions.len() - 1]
        }
    }

    /// An equal copy.
    pub fn duplicate(&self) -> (r: Self)
        ensures
            r.same(self),
    {
        SymbolicBool { constant: self.constant, conditions: copy_conditions(&self.conditions) }
    }

    /// The expression spelled out: `1 xor s2 xor s9`, or `0` when it is
    /// constantly false.
    pub fn to_string(&self) -> (r: String)
        requires
            self.wf(),
        ensures
            r@ == expression_text(self.constant, self.conditions@),
    {
        proof {
            reveal_strlit("1");
            reveal_strlit("0");
            reveal_strlit(" xor ");
            reveal_strlit("s");
        }
        let mut out: String = String::new();
        assert(out@ =~= Seq::<char>::empty());
        if self.constant {
            out.append("1");
            assert(out@ =~= "1"@);
        }
        let mut i: usize = 0;
        assert(self.conditions@.take(0) =~= Seq::<i32>::empty());
        while i < self.conditions.len()
            invariant
                i <= self.conditions@.len(),
                canonical(self.conditions@),
                out@ == terms_text(self.constant, self.conditions@.take(i as int)),
            decreases self.conditions@.len() - i,
        {
            if self.constant || i > 0 {
                out.append(" xor ");
            }
            out.append("s");
            push_decimal(&mut out, self.conditions[i] as u64);
            proof {
                let c = self.conditions@.take(i as int);
                let d = self.conditions@.take(i + 1);
                assert(d.drop_last() =~= c);
                assert(d.last() == self.conditions@[i as int]);
                assert(out@ =~= terms_text(self.constant, d));
            }
            i += 1;
        }
        assert(self.conditions@.take(i as int) =~= self.conditions@);
        if !self.constant && self.conditions.len() == 0 {
            out.append("0");
            assert(out@ =~= "0"@);
        }
        out
    }
}

/// The nonzero terms of an expression joined by ` xor `.
pub open spec fn terms_text(constant: bool, conditions: Seq<i32>) -> Seq<char>
    decreases conditions.len(),
{
    if conditions.len() == 0 {
        if constant {
            "1"@
        } else {
            Seq::<char>::empty()
        }
    } else {
        let front = terms_text(constant, conditions.drop_last());
        let term = "s"@ + decimal(conditions.last() as nat);
        if constant || conditions.len() > 1 {
            front + " xor "@ + term
        } else {
            front + term
        }
    }
}

/// What [`SymbolicBool::to_string`] writes.
pub open spec fn expression_text(constant: bool, conditions: Seq<i32>) -> Seq<char> {
    if !constant && conditions.len() == 0 {
        "0"@
    } else {
        terms_text(constant, conditions)
    }
}

/// A copy of a condition list.
pub fn copy_conditions(conditions: &Vec<i32>) -> (r: Vec<i32>)
    ensures
        r@ == conditions@,
{
    let r: Vec<i32> = conditions.clone();
    assert(r@ =~= conditions@);
    r
}

impl Default for SymbolicBool {
    /// The constant false.
    fn default() -> (r: Self)
        ensures
            r.wf(),
            !r.constant,
            r.conditions@.len() == 0,
    {
        SymbolicBool { constant: false, conditions: Vec::new() }
    }
}

impl From<bool> for SymbolicBool {
    /// The constant expression.
    fn from(constant: bool) -> (r: Self)
        ensures
            r.wf(),
            r.constant == constant,
            r.conditions@.len() == 0,
    {
        SymbolicBool { constant, conditions: Vec::new() }
    }
}

impl vstd::std_specs::convert::FromSpecImpl<bool> for SymbolicBool {
    open spec fn obeys_from_spec() -> bool {
        false
    }

    open spec fn from_spec(constant: bool) -> Self {
        arbitrary()
    }
}

impl core::ops::Not for SymbolicBool {
    type Output = SymbolicBool;

    /// Flips only the constant; the symbol set is untouched.
    fn not(self) -> (r: SymbolicBool)
        ensures
            r.constant == !self.constant,
            r.conditions@ == self.conditions@,
    {
        SymbolicBool { constant: !self.constant, conditions: self.conditions }
    }
}

impl vstd::std_specs::ops::NotSpecImpl for SymbolicBool {
    open spec fn obeys_not_spec() -> bool {
        false
    }

    open spec fn not_req(self) -> bool {
        true
    }

    open spec fn not_spec(self) -> SymbolicBool {
        arbitrary()
    }
}

impl<'a> core::ops::Not for &'a SymbolicBool {
    type Output = SymbolicBool;

    /// Flips only the constant; the symbol set is untouched.
    fn not(self) -> (r: SymbolicBool)
        ensures
            r.constant == !self.constant,
            r.conditions@ == self.conditions@,
    {
        SymbolicBool { constant: !self.constant, conditions: copy_conditions(&self.conditions) }
    }
}

impl<'a> vstd::std_specs::ops::NotSpecImpl for &'a SymbolicBool {
    open spec fn obeys_not_spec() -> bool {
        false
    }

    open spec fn not_req(self) -> bool {
        true
    }

    open spec fn not_spec(self) -> SymbolicBool {
        arbitrary()
    }
}

/// The bare symbol `s_condition`.
pub fn symbolic_bool(condition: i32) -> (r: SymbolicBool)
    requires
        condition > 0,
    ensures
        r.wf(),
        !r.constant,
        r.conditions@ == seq![condition],
{
    let mut conditions: Vec<i32> = Vec::new();
    conditions.push(condition);
    assert(conditions@ =~= seq![condition]);
    SymbolicBool { constant: false, conditions }
}

/// XOR of two expressions: symmetric difference of the condition sets.
pub fn xor_bool(lhs: &SymbolicBool, rhs: &SymbolicBool) -> (r: SymbolicBool)
    requires
        lhs.wf(),
        rhs.wf(),
    ensures
        r.wf(),
        r.constant == (lhs.constant != rhs.constant),
        forall|x: i32|
            #[trigger] r.conditions@.contains(x) == (lhs.conditions@.contains(x)
                != rhs.conditions@.contains(x)),
        forall|v: spec_fn(i32) -> bool| #[trigger] r.value(v) == (lhs.value(v) != rhs.value(v)),
{
    let conditions: Vec<i32> = symmetric_difference(
        lhs.conditions.as_slice(),
        rhs.conditions.as_slice(),
    );
    proof {
        assert forall|i: int| 0 <= i < conditions@.len() implies 0 < #[trigger] conditions@[i] by {
            let x = conditions@[i];
            assert(conditions@.contains(x));
            if lhs.conditions@.contains(x) {
                let k = choose|k: int| 0 <= k < lhs.conditions@.len() && lhs.conditions@[k] == x;
                assert(0 < lhs.conditions@[k]);
            } else {
                let k = choose|k: int| 0 <= k < rhs.conditions@.len() && rhs.conditions@[k] == x;
                assert(0 < rhs.conditions@[k]);
            }
        }
    }
    let r = SymbolicBool { constant: lhs.constant != rhs.constant, conditions };
    assert forall|v: spec_fn(i32) -> bool| #[trigger] r.value(v) == (lhs.value(v) != rhs.value(v)) by {
        assert(xor_of(conditions@, v) == (xor_of(lhs.conditions@, v) != xor_of(
            rhs.conditions@,
            v,
        )));
    }
    r
}

/// XOR of an expression with a literal.
pub fn xor_bool_constant(expr: &SymbolicBool, value: bool) -> (r: SymbolicBool)
    ensures
        r.constant == (expr.constant != value),
        r.conditions@ == expr.conditions@,
{
    SymbolicBool {
        constant: expr.constant != value,
        conditions: copy_conditions(&expr.conditions),
    }
}

/// Expressions in canonical form are equal exactly when they have the same
/// value under every valuation of the symbols.
pub proof fn law_canonical_form_is_semantic(a: SymbolicBool, b: SymbolicBool)
    requires
        a.wf(),
        b.wf(),
    ensures
        a.same(&b) <==> forall|v: spec_fn(i32) -> bool| #[trigger] a.value(v) == b.value(v),
{
    if forall|v: spec_fn(i32) -> bool| #[trigger] a.value(v) == b.value(v) {
        let zero = |c: i32| false;
        assert(a.value(zero) == b.value(zero));
        lemma_xor_of_false(a.conditions@, zero);
        lemma_xor_of_false(b.conditions@, zero);
        assert forall|v: spec_fn(i32) -> bool|
            #[trigger] xor_of(a.conditions@, v) == xor_of(b.conditions@, v) by {
            assert(a.value(v) == b.value(v));
        }
        lemma_ascending_semantic(a.conditions@, b.conditions@);
    }
}

/// Symbols that are all false XOR to false.
pub proof fn lemma_xor_of_false(c: Seq<i32>, v: spec_fn(i32) -> bool)
    requires
        forall|i: int| 0 <= i < c.len() ==> !v(#[trigger] c[i]),
    ensures
        !xor_of(c, v),
    decreases c.len(),
{
    if c.len() > 0 {
        assert forall|i: int| 0 <= i < c.drop_last().len() implies !v(#[trigger] c.drop_last()[i]) by {
            assert(c.drop_last()[i] == c[i]);
        }
        lemma_xor_of_false(c.drop_last(), v);
        assert(!v(c[c.len() - 1]));
    }
}

// ---------------------------------------------------------------------------
// Evaluation plans
// ---------------------------------------------------------------------------
/// Word-addressed form of a [`SymbolicBool`], precomputed once at planning time.
///
/// Evaluation is: XOR-parity of `value_words[word_indices[i]] & word_masks[i]`
/// over all `i`, then XOR `constant`. `word_indices` is ascending and deduped:
/// consecutive conditions falling in the same 64-bit word are coalesced into a
/// single mask, and samplers use the last index as the bounds check for the
/// symbol bitset.
#[derive(Clone, Debug, Default, PartialEq, Eq)]
pub struct SymbolicBoolEvaluationPlan {
    pub constant: bool,
    pub conditions: Vec<i32>,
    pub word_indices: Vec<usize>,
    pub word_masks: Vec<u64>,
}

/// Whether a list of masked words names bit `b` of the symbol row.
pub open spec fn masks_select(indices: Seq<usize>, masks: Seq<u64>, b: int) -> bool {
    exists|i: int|
        0 <= i < indices.len() && #[trigger] indices[i] == b / 64 && word_bit(masks[i], b % 64)
}

/// No mask is empty, and no mask reaches past the last symbol.
pub open spec fn masks_exact(indices: Seq<usize>, masks: Seq<u64>) -> bool {
    &&& forall|i: int| 0 <= i < masks.len() ==> #[trigger] masks[i] != 0
    &&& forall|i: int, j: int|
        0 <= i < masks.len() && 0 <= j < 64 && #[trigger] word_bit(masks[i], j) ==> 64 * indices[i]
            + j < i32::MAX
}

/// The XOR-parity of the masked words of a symbol row, over the first `n` masks.
pub open spec fn masked_parity(indices: Seq<usize>, masks: Seq<u64>, words: Seq<u64>, n: int) -> bool
    decreases n,
{
    if n <= 0 {
        false
    } else {
        masked_parity(indices, masks, words, n - 1) != word_parity(
            words[indices[n - 1] as int] & masks[n - 1],
        )
    }
}

/// The value each symbol has in a packed symbol row.
pub open spec fn row_valuation(words: Seq<u64>) -> spec_fn(i32) -> bool {
    |c: i32| row_bit(words, symbol_bit(c as int))
}

proof fn lemma_masked_parity_ext(
    i1: Seq<usize>,
    m1: Seq<u64>,
    i2: Seq<usize>,
    m2: Seq<u64>,
    words: Seq<u64>,
    n: int,
)
    requires
        forall|i: int| 0 <= i < n ==> #[trigger] i1[i] == i2[i],
        forall|i: int| 0 <= i < n ==> #[trigger] m1[i] == m2[i],
    ensures
        masked_parity(i1, m1, words, n) == masked_parity(i2, m2, words, n),
    decreases n,
{
    if n > 0 {
        assert(i1[n - 1] == i2[n - 1] && m1[n - 1] == m2[n - 1]);
        lemma_masked_parity_ext(i1, m1, i2, m2, words, n - 1);
    }
}

/// The words of a plan, as a list of symbols' words.
spec fn plan_words(plan: SymbolicBoolEvaluationPlan) -> Seq<i32> {
    Seq::new(plan.word_indices@.len(), |i: int| plan.word_indices@[i] as i32)
}

/// A mask names bit `j` of its word exactly when the condition is listed.
proof fn lemma_mask_bit(plan: SymbolicBoolEvaluationPlan, i: int, j: int)
    requires
        plan.wf(),
        0 <= i < plan.word_indices@.len(),
        0 <= j < 64,
    ensures
        ({
            let b = 64 * plan.word_indices@[i] + j;
            word_bit(plan.word_masks@[i], j) == (b < i32::MAX && plan.conditions@.contains(
                (b + 1) as i32,
            ))
        }),
{
    let indices = plan.word_indices@;
    let masks = plan.word_masks@;
    let b = 64 * indices[i] + j;
    assert(b / 64 == indices[i] && b % 64 == j);
    if word_bit(masks[i], j) {
        assert(b < i32::MAX);
        assert(masks_select(indices, masks, b));
    }
    if b < i32::MAX && plan.conditions@.contains((b + 1) as i32) {
        assert(masks_select(indices, masks, b));
        let m = choose|m: int|
            0 <= m < indices.len() && #[trigger] indices[m] == b / 64 && word_bit(masks[m], b % 64);
        if m < i {
            assert(indices[m] < indices[i]);
        } else if i < m {
            assert(indices[i] < indices[m]);
        }
    }
}

/// A word that one plan masks holds a condition, so that another plan of the same
/// conditions masks it too.
proof fn lemma_masked_word(a: SymbolicBoolEvaluationPlan, b: SymbolicBoolEvaluationPlan, i: int)
    requires
        a.wf(),
        b.wf(),
        a.conditions@ == b.conditions@,
        0 <= i < a.word_indices@.len(),
    ensures
        plan_words(b).contains(a.word_indices@[i] as i32),
{
    let w = a.word_masks@[i];
    assert(exists|j: int| 0 <= j < 64 && #[trigger] word_bit(w, j)) by {
        if forall|j: int| 0 <= j < 64 ==> !#[trigger] word_bit(w, j) {
            crate::bits::lemma_word_ext(w, 0u64);
        }
    }
    let j = choose|j: int| 0 <= j < 64 && #[trigger] word_bit(w, j);
    let at = 64 * a.word_indices@[i] + j;
    lemma_mask_bit(a, i, j);
    assert(at / 64 == a.word_indices@[i] && at % 64 == j);
    assert(masks_select(b.word_indices@, b.word_masks@, at));
    let m = choose|m: int|
        0 <= m < b.word_indices@.len() && #[trigger] b.word_indices@[m] == at / 64 && word_bit(
            b.word_masks@[m],
            at % 64,
        );
    assert(plan_words(b)[m] == a.word_indices@[i] as i32);
}

/// The words and masks of a plan are determined by its conditions.
pub proof fn law_conditions_determine_the_masks(
    a: SymbolicBoolEvaluationPlan,
    b: SymbolicBoolEvaluationPlan,
)
    requires
        a.wf(),
        b.wf(),
        a.conditions@ == b.conditions@,
    ensures
        a.word_indices@ == b.word_indices@,
        a.word_masks@ == b.word_masks@,
{
    let x = plan_words(a);
    let y = plan_words(b);
    assert forall|w: i32| x.contains(w) == y.contains(w) by {
        if x.contains(w) {
            let i = choose|i: int| 0 <= i < x.len() && x[i] == w;
            lemma_masked_word(a, b, i);
        }
        if y.contains(w) {
            let i = choose|i: int| 0 <= i < y.len() && y[i] == w;
            lemma_masked_word(b, a, i);
        }
    }
    assert forall|i: int, j: int| 0 <= i < j < x.len() implies x[i] < x[j] by {
        assert(a.word_indices@[i] < a.word_indices@[j]);
    }
    assert forall|i: int, j: int| 0 <= i < j < y.len() implies y[i] < y[j] by {
        assert(b.word_indices@[i] < b.word_indices@[j]);
    }
    lemma_ascending_unique(x, y);
    assert forall|i: int| 0 <= i < a.word_indices@.len() implies a.word_indices@[i]
        == b.word_indices@[i] && a.word_masks@[i] == b.word_masks@[i] by {
        assert(x[i] == y[i]);
        assert(a.word_indices@[i] <= (i32::MAX - 1) / 64 && b.word_indices@[i] <= (i32::MAX - 1)
            / 64);
        assert forall|j: int| 0 <= j < 64 implies #[trigger] word_bit(a.word_masks@[i], j)
            == word_bit(b.word_masks@[i], j) by {
            lemma_mask_bit(a, i, j);
            lemma_mask_bit(b, i, j);
        }
        crate::bits::lemma_word_ext(a.word_masks@[i], b.word_masks@[i]);
    }
    assert(a.word_indices@ =~= b.word_indices@);
    assert(a.word_masks@ =~= b.word_masks@);
}

impl SymbolicBoolEvaluationPlan {
    /// The masks name exactly the listed conditions, one mask per word.
    pub open spec fn wf(&self) -> bool {
        &&& canonical(self.conditions@)
        &&& self.word_indices@.len() == self.word_masks@.len()
        &&& forall|i: int, j: int|
            0 <= i < j < self.word_indices@.len() ==> self.word_indices@[i] < self.word_indices@[j]
        &&& forall|b: int|
            0 <= b < i32::MAX ==> #[trigger] masks_select(self.word_indices@, self.word_masks@, b)
                == self.conditions@.contains((b + 1) as i32)
        &&& forall|i: int|
            0 <= i < self.word_indices@.len() ==> #[trigger] self.word_indices@[i] <= (i32::MAX - 1)
                / 64
        &&& masks_exact(self.word_indices@, self.word_masks@)
    }

    /// The value of the planned expression under the valuation `v`.
    pub open spec fn value(&self, v: spec_fn(i32) -> bool) -> bool {
        self.constant != xor_of(self.conditions@, v)
    }

    /// What the masked evaluation of a symbol row gives.
    pub open spec fn masked_value(&self, words: Seq<u64>) -> bool {
        self.constant != masked_parity(
            self.word_indices@,
            self.word_masks@,
            words,
            self.word_indices@.len() as int,
        )
    }

    /// Groups the conditions of an expression by the word that holds them.
    /// Evaluating the masks on a symbol row gives the value of the expression.
    pub fn new(expr: &SymbolicBool) -> (r: Self)
        requires
            expr.wf(),
        ensures
            r.wf(),
            r.constant == expr.constant,
            r.conditions@ == expr.conditions@,
            forall|words: Seq<u64>|
                (forall|i: int|
                    0 <= i < expr.conditions@.len() ==> #[trigger] expr.conditions@[i] <= 64
                        * words.len()) ==> #[trigger] r.masked_value(words) == expr.value(
                    row_valuation(words),
                ),
    {
        let conditions: Vec<i32> = copy_conditions(&expr.conditions);
        let mut indices: Vec<usize> = Vec::new();
        let mut masks: Vec<u64> = Vec::new();
        let mut k: usize = 0;
        assert(conditions@.take(0) =~= Seq::<i32>::empty());
        while k < conditions.len()
            invariant
                k <= conditions@.len(),
                canonical(conditions@),
                indices@.len() == masks@.len(),
                indices@.len() <= k,
                forall|i: int, j: int| 0 <= i < j < indices@.len() ==> indices@[i] < indices@[j],
                indices@.len() > 0 ==> k > 0 && indices@.last() == symbol_bit(
                    conditions@[k - 1] as int,
                ) / 64,
                forall|i: int| 0 <= i < indices@.len() ==> #[trigger] indices@[i] <= (i32::MAX - 1) / 64,
                k > 0 ==> indices@.len() > 0,
                masks_exact(indices@, masks@),
                forall|b: int|
                    0 <= b < i32::MAX ==> #[trigger] masks_select(indices@, masks@, b)
                        == conditions@.take(k as int).contains((b + 1) as i32),
                forall|words: Seq<u64>|
                    (forall|i: int|
                        0 <= i < conditions@.len() ==> #[trigger] conditions@[i] <= 64 * words.len())
                        ==> #[trigger] masked_parity(
                        indices@,
                        masks@,
                        words,
                        indices@.len() as int,
                    ) == xor_of(conditions@.take(k as int), row_valuation(words)),
            decreases conditions@.len() - k,
        {
            let condition: i32 = conditions[k];
            let word: usize = symbol_word_index(condition);
            let offset: u64 = symbol_bit_offset(condition);
            let mask: u64 = symbol_bit_mask(condition);
            let ghost i0 = indices@;
            let ghost m0 = masks@;
            let ghost bit = symbol_bit(condition as int);
            let ghost prefix = conditions@.take(k as int);
            let last: usize = indices.len();
            assert(!prefix.contains(condition)) by {
                if prefix.contains(condition) {
                    let i = choose|i: int| 0 <= i < prefix.len() && prefix[i] == condition;
                    assert(conditions@[i] < conditions@[k as int]);
                }
            }
            assert(!masks_select(i0, m0, bit));
            if last > 0 && indices[last - 1] == word {
                let joined: u64 = masks[last - 1] | mask;
                masks.set(last - 1, joined);
            } else {
                indices.push(word);
                masks.push(mask);
            }
            proof {
                let next = conditions@.take(k + 1);
                assert(next =~= prefix.push(condition));
                let n = indices@.len() as int;
                assert(indices@[n - 1] == word);
                // Selection: the new bit is named, everything else as before.
                assert forall|b: int| 0 <= b < i32::MAX implies #[trigger] masks_select(
                    indices@,
                    masks@,
                    b,
                ) == next.contains((b + 1) as i32) by {
                    assert(masks_select(i0, m0, b) == prefix.contains((b + 1) as i32));
                    assert(next.contains((b + 1) as i32) == (prefix.contains((b + 1) as i32) || b
                        == bit)) by {
                        assert(next[k as int] == condition);
                        if prefix.contains((b + 1) as i32) {
                            let i = choose|i: int|
                                0 <= i < prefix.len() && prefix[i] == (b + 1) as i32;
                            assert(next[i] == (b + 1) as i32);
                        }
                    }
                    if masks_select(i0, m0, b) {
                        let i = choose|i: int|
                            0 <= i < i0.len() && #[trigger] i0[i] == b / 64 && word_bit(
                                m0[i],
                                b % 64,
                            );
                        assert(indices@[i] == b / 64 && word_bit(masks@[i], b % 64));
                    }
                    if b == bit {
                        assert(indices@[n - 1] == b / 64 && word_bit(masks@[n - 1], b % 64));
                    }
                    if masks_select(indices@, masks@, b) && b != bit {
                        let i = choose|i: int|
                            0 <= i < n && #[trigger] indices@[i] == b / 64 && word_bit(
                                masks@[i],
                                b % 64,
                            );
                        assert(i < i0.len());
                        assert(i0[i] == b / 64 && word_bit(m0[i], b % 64));
                    }
                }
                assert(word_bit(mask, offset as int));
                assert(masks@[n - 1] != 0) by {
                    assert(word_bit(masks@[n - 1], offset as int));
                    assert(!word_bit(0u64, offset as int));
                }
                assert forall|i: int, j: int|
                    0 <= i < n && 0 <= j < 64 && #[trigger] word_bit(masks@[i], j) implies 64
                    * indices@[i] + j < i32::MAX by {
                    if i < i0.len() && word_bit(m0[i], j) {
                        assert(64 * i0[i] + j < i32::MAX);
                    } else {
                        assert(word_bit(mask, j));
                    }
                }
                // Ascent.
                if n > i0.len() && i0.len() > 0 {
                    assert(conditions@[k - 1] < conditions@[k as int]);
                    assert(i0.last() < word);
                }
                // Evaluation.
                assert forall|words: Seq<u64>|
                    (forall|i: int|
                        0 <= i < conditions@.len() ==> #[trigger] conditions@[i] <= 64
                            * words.len()) implies #[trigger] masked_parity(indices@, masks@, words, n)
                    == xor_of(next, row_valuation(words)) by {
                    assert(conditions@[k as int] <= 64 * words.len());
                    lemma_xor_of_push(prefix, condition, row_valuation(words));
                    assert(masked_parity(i0, m0, words, i0.len() as int) == xor_of(
                        prefix,
                        row_valuation(words),
                    ));
                    let w = words[word as int];
                    assert(row_valuation(words)(condition) == word_bit(w, offset as int));
                    if n > i0.len() {
                        lemma_masked_parity_ext(i0, m0, indices@, masks@, words, n - 1);
                        lemma_word_parity_zero();
                        assert(!word_bit(0u64, offset as int));
                        lemma_parity_join(w, 0, offset);
                        assert(w & 0 == 0) by (bit_vector);
                        assert(0u64 | mask == mask) by (bit_vector);
                    } else {
                        lemma_masked_parity_ext(i0, m0, indices@, masks@, words, n - 1);
                        assert(i0[n - 1] == bit / 64);
                        assert(!word_bit(m0[n - 1], bit % 64));
                        lemma_parity_join(w, m0[n - 1], offset);
                    }
                }
            }
            k += 1;
        }
        assert(conditions@.take(k as int) =~= conditions@);
        let r = SymbolicBoolEvaluationPlan {
            constant: expr.constant,
            conditions,
            word_indices: indices,
            word_masks: masks,
        };
        assert forall|words: Seq<u64>|
            (forall|i: int|
                0 <= i < expr.conditions@.len() ==> #[trigger] expr.conditions@[i] <= 64
                    * words.len()) implies #[trigger] r.masked_value(words) == expr.value(
            row_valuation(words),
        ) by {
            assert(masked_parity(indices@, masks@, words, indices@.len() as int) == xor_of(
                conditions@,
                row_valuation(words),
            ));
        }
        r
    }
}

// ---------------------------------------------------------------------------
// The symbol registry
// ---------------------------------------------------------------------------
/// The IEEE-754 encoding of `1.0`.
pub const ONE_BITS: u64 = 0x3ff0_0000_0000_0000;

/// The IEEE-754 encoding of `-0.0`.
pub const NEGATIVE_ZERO_BITS: u64 = 0x8000_0000_0000_0000;

/// Whether the double with these bits lies between 0 and 1. The encodings of
/// nonnegative doubles ascend with the value, and those above `1.0` end in the
/// infinity and the NaNs.
pub open spec fn is_probability(bits: u64) -> bool {
    bits <= ONE_BITS || bits == NEGATIVE_ZERO_BITS
}

/// Accepts the bits of a double between 0 and 1.
pub fn check_probability(bits: u64) -> (r: Result<u64>)
    ensures
        match r {
            Ok(p) => is_probability(bits) && p == bits,
            Err(e) => !is_probability(bits) && e@ == "probability must be between 0 and 1"@,
        },
{
    if bits <= ONE_BITS || bits == NEGATIVE_ZERO_BITS {
        Ok(bits)
    } else {
        Err(TicitError::new("probability must be between 0 and 1"))
    }
}

/// A joint distribution over `nbits` fresh symbols.
///
/// `assignments[row]` is a packed bitset whose bit `i` corresponds to
/// `conditions[i]`; `probabilities[row]` holds the bits of the weight of that
/// row.
#[derive(Clone, Debug, PartialEq)]
pub struct SymbolicCategoricalDistribution {
    pub nbits: usize,
    pub conditions: Vec<i32>,
    pub assignments: Vec<Vec<u64>>,
    pub probabilities: Vec<u64>,
}

/// Allocator and registry for condition symbols.
///
/// Probabilities are kept as the bits of a double.
#[derive(Clone, Debug)]
pub struct SymbolicContext {
    pub next_condition: i32,
    /// Ascending iteration order is a reproducibility contract: it fixes the
    /// order in which the sampler draws Bernoulli symbols.
    pub bernoulli_probabilities: BTreeMap<i32, u64>,
    pub categorical_distributions: Vec<SymbolicCategoricalDistribution>,
    /// Guards against one condition joining two categorical groups.
    pub condition_to_categorical: HashMap<i32, usize>,
}

impl Default for SymbolicContext {
    fn default() -> (r: Self)
        ensures
            r.wf(),
            r.next_condition == 1,
            r.bernoulli_probabilities@ == Map::<i32, u64>::empty(),
            r.categorical_distributions@.len() == 0,
            r.groups() == Map::<i32, usize>::empty(),
    {
        SymbolicContext {
            next_condition: 1,
            bernoulli_probabilities: BTreeMap::new(),
            categorical_distributions: Vec::new(),
            condition_to_categorical: HashMap::new(),
        }
    }
}

/// The run of `n` consecutive ids from `start`.
pub open spec fn id_run(start: int, n: nat) -> Seq<i32> {
    Seq::new(n, |i: int| (start + i) as i32)
}

/// Why a categorical distribution is refused, if it is; `sums_to_one` is the
/// outcome of the floating-point check on the weights.
pub open spec fn categorical_refusal(
    nbits: usize,
    assignments: Seq<Vec<u64>>,
    probabilities: Seq<u64>,
    sums_to_one: bool,
) -> Option<Seq<char>> {
    if assignments.len() == 0 {
        Some("categorical symbolic distribution needs at least one assignment"@)
    } else if nbits == 0 || assignments.len() != probabilities.len() {
        Some("invalid categorical symbolic distribution"@)
    } else if exists|i: int|
        0 <= i < assignments.len() && (#[trigger] assignments[i])@.len() != words_for_bits(nbits as int) {
        Some("categorical assignment length mismatch"@)
    } else if exists|i: int| 0 <= i < probabilities.len() && !is_probability(#[trigger] probabilities[i]) {
        Some("probability must be between 0 and 1"@)
    } else if !sums_to_one {
        Some("categorical symbolic distribution probabilities must sum to 1"@)
    } else {
        None
    }
}

impl SymbolicContext {
    /// Which categorical group each grouped symbol belongs to.
    pub open spec fn groups(&self) -> Map<i32, usize> {
        self.condition_to_categorical@
    }

    /// Every registered symbol is below the next fresh one, and no symbol has
    /// two distributions.
    pub open spec fn wf(&self) -> bool {
        &&& self.next_condition >= 1
        &&& forall|c: i32| #[trigger] self.groups().contains_key(c) ==> 0 < c < self.next_condition
        &&& forall|c: i32| #[trigger] self.bernoulli_probabilities@.contains_key(c) ==> 0 < c
            < self.next_condition && !self.groups().contains_key(c)
    }

    pub fn new() -> (r: Self)
        ensures
            r.wf(),
            r.next_condition == 1,
            r.bernoulli_probabilities@ == Map::<i32, u64>::empty(),
            r.categorical_distributions@.len() == 0,
            r.groups() == Map::<i32, usize>::empty(),
    {
        SymbolicContext::default()
    }

    /// Starts allocation at `next_condition`.
    pub fn with_next_condition(next_condition: i32) -> (r: Self)
        requires
            next_condition > 0,
        ensures
            r.wf(),
            r.next_condition == next_condition,
            r.bernoulli_probabilities@ == Map::<i32, u64>::empty(),
            r.categorical_distributions@.len() == 0,
            r.groups() == Map::<i32, usize>::empty(),
    {
        SymbolicContext {
            next_condition,
            bernoulli_probabilities: BTreeMap::new(),
            categorical_distributions: Vec::new(),
            condition_to_categorical: HashMap::new(),
        }
    }

    /// Ensures future fresh ids stay above `condition`.
    pub fn bump_next_condition(&mut self, condition: i32)
        requires
            0 <= condition < i32::MAX,
        ensures
            final(self).next_condition == if old(self).next_condition <= condition {
                condition + 1
            } else {
                old(self).next_condition as int
            },
            final(self).bernoulli_probabilities == old(self).bernoulli_probabilities,
            final(self).categorical_distributions == old(self).categorical_distributions,
            final(self).groups() == old(self).groups(),
            old(self).wf() ==> final(self).wf(),
    {
        if self.next_condition <= condition {
            self.next_condition = condition + 1;
        }
    }

    /// [`bump_next_condition`](Self::bump_next_condition) for every symbol an
    /// expression mentions.
    pub fn bump_next_condition_for(&mut self, expr: &SymbolicBool)
        requires
            expr.wf(),
            forall|i: int| 0 <= i < expr.conditions@.len() ==> #[trigger] expr.conditions@[i] < i32::MAX,
        ensures
            final(self).next_condition >= old(self).next_condition,
            forall|i: int|
                0 <= i < expr.conditions@.len() ==> #[trigger] expr.conditions@[i]
                    < final(self).next_condition,
            final(self).next_condition > old(self).next_condition ==> expr.conditions@.len() > 0
                && final(self).next_condition == expr.conditions@.last() + 1 || (
            expr.conditions@.len() == 0 && final(self).next_condition == 1),
            final(self).bernoulli_probabilities == old(self).bernoulli_probabilities,
            final(self).categorical_distributions == old(self).categorical_distributions,
            final(self).groups() == old(self).groups(),
            old(self).wf() ==> final(self).wf(),
    {
        let top: i32 = expr.max_condition();
        proof {
            if expr.conditions@.len() > 0 {
                let n = expr.conditions@.len() as int;
                let i = choose|i: int| 0 <= i < n && expr.conditions@[i] == top;
                assert(expr.conditions@[i] < i32::MAX);
                assert(expr.conditions@[n - 1] <= top);
                if i < n - 1 {
                    assert(expr.conditions@[i] < expr.conditions@[n - 1]);
                }
            }
        }
        self.bump_next_condition(top);
    }

    /// Mints one symbol.
    pub fn fresh_condition(&mut self) -> (r: i32)
        requires
            old(self).next_condition < i32::MAX,
        ensures
            r == old(self).next_condition,
            final(self).next_condition == r + 1,
            final(self).bernoulli_probabilities == old(self).bernoulli_probabilities,
            final(self).categorical_distributions == old(self).categorical_distributions,
            final(self).groups() == old(self).groups(),
            old(self).wf() ==> final(self).wf(),
    {
        let condition: i32 = self.next_condition;
        self.next_condition = self.next_condition + 1;
        condition
    }

    /// Mints a symbol that is true with the given probability.
    pub fn fresh_bernoulli_condition(&mut self, probability: u64) -> (r: Result<i32>)
        requires
            is_probability(probability) ==> old(self).next_condition < i32::MAX,
        ensures
            final(self).categorical_distributions == old(self).categorical_distributions,
            final(self).groups() == old(self).groups(),
            old(self).wf() ==> final(self).wf(),
            r is Ok <==> is_probability(probability) && !old(self).groups().contains_key(
                old(self).next_condition,
            ),
            old(self).wf() ==> (r is Ok <==> is_probability(probability)),
            match r {
                Ok(c) => c == old(self).next_condition && final(self).next_condition == c + 1
                    && final(self).bernoulli_probabilities@ == old(
                    self,
                ).bernoulli_probabilities@.insert(c, probability),
                Err(e) => final(self).bernoulli_probabilities@ == old(self).bernoulli_probabilities@
                    && if is_probability(probability) {
                    e@ == "condition already belongs to a categorical distribution"@
                        && final(self).next_condition == old(self).next_condition + 1
                } else {
                    e@ == "probability must be between 0 and 1"@ && final(self).next_condition
                        == old(self).next_condition
                },
            },
    {
        let probability: u64 = match check_probability(probability) {
            Ok(p) => p,
            Err(e) => {
                return Err(e);
            },
        };
        let condition: i32 = self.fresh_condition();
        if self.condition_to_categorical.contains_key(&condition) {
            return Err(TicitError::new("condition already belongs to a categorical distribution"));
        }
        self.bernoulli_probabilities.insert(condition, probability);
        Ok(condition)
    }

    /// [`fresh_bernoulli_condition`](Self::fresh_bernoulli_condition) as an
    /// expression.
    pub fn fresh_bernoulli_bool(&mut self, probability: u64) -> (r: Result<SymbolicBool>)
        requires
            old(self).wf(),
            is_probability(probability) ==> old(self).next_condition < i32::MAX,
        ensures
            final(self).wf(),
            final(self).categorical_distributions == old(self).categorical_distributions,
            final(self).groups() == old(self).groups(),
            match r {
                Ok(b) => is_probability(probability) && b.wf() && !b.constant && b.conditions@ == seq![
                    old(self).next_condition,
                ] && final(self).next_condition == old(self).next_condition + 1
                    && final(self).bernoulli_probabilities@ == old(
                    self,
                ).bernoulli_probabilities@.insert(old(self).next_condition, probability),
                Err(e) => !is_probability(probability) && e@ == "probability must be between 0 and 1"@
                    && final(self).next_condition == old(self).next_condition
                    && final(self).bernoulli_probabilities@ == old(self).bernoulli_probabilities@,
            },
    {
        match self.fresh_bernoulli_condition(probability) {
            Ok(condition) => Ok(symbolic_bool(condition)),
            Err(e) => Err(e),
        }
    }

    /// Mints `nbits` fresh symbols jointly distributed per `assignments` /
    /// `probabilities`. `sums_to_one` says whether the weights add up to 1
    /// within rounding, which the caller computes in floating point.
    pub fn fresh_categorical_conditions(
        &mut self,
        nbits: usize,
        assignments: &[Vec<u64>],
        probabilities: &[u64],
        sums_to_one: bool,
    ) -> (r: Result<Vec<i32>>)
        requires
            old(self).next_condition >= 1,
            categorical_refusal(nbits, assignments@, probabilities@, sums_to_one) is None ==> old(
                self,
            ).next_condition + nbits <= i32::MAX,
        ensures
            final(self).bernoulli_probabilities == old(self).bernoulli_probabilities,
            old(self).wf() ==> final(self).wf(),
            match r {
                Ok(ids) => {
                    let n = old(self).categorical_distributions@.len();
                    &&& categorical_refusal(nbits, assignments@, probabilities@, sums_to_one) is None
                    &&& ids@ == id_run(old(self).next_condition as int, nbits as nat)
                    &&& final(self).next_condition == old(self).next_condition + nbits
                    &&& final(self).categorical_distributions@.len() == n + 1
                    &&& final(self).categorical_distributions@.take(n as int) == old(
                        self,
                    ).categorical_distributions@
                    &&& final(self).categorical_distributions@[n as int].nbits == nbits
                    &&& final(self).categorical_distributions@[n as int].conditions@ == ids@
                    &&& final(self).categorical_distributions@[n as int].assignments.deep_view()
                        == assignments.deep_view()
                    &&& final(self).categorical_distributions@[n as int].probabilities@
                        == probabilities@
                    &&& forall|c: i32| #[trigger]
                        final(self).groups().contains_key(c) == (old(self).groups().contains_key(c)
                            || old(self).next_condition <= c < final(self).next_condition)
                    &&& forall|c: i32|
                        old(self).next_condition <= c < final(self).next_condition
                            ==> #[trigger] final(self).groups()[c] == n
                    &&& forall|c: i32|
                        old(self).groups().contains_key(c) && !(old(self).next_condition <= c
                            < final(self).next_condition) ==> #[trigger] final(self).groups()[c]
                            == old(self).groups()[c]
                },
                Err(e) => {
                    &&& categorical_refusal(nbits, assignments@, probabilities@, sums_to_one) == Some(e@)
                    &&& *final(self) == *old(self)
                },
            },
    {
        if assignments.len() == 0 {
            return Err(
                TicitError::new("categorical symbolic distribution needs at least one assignment"),
            );
        }
        if nbits == 0 || assignments.len() != probabilities.len() {
            return Err(TicitError::new("invalid categorical symbolic distribution"));
        }
        let nwords: usize = bit_word_count(nbits);
        let mut i: usize = 0;
        while i < assignments.len()
            invariant
                i <= assignments@.len(),
                nwords == words_for_bits(nbits as int),
                nbits != 0,
                assignments@.len() == probabilities@.len(),
                *self == *old(self),
                forall|k: int| 0 <= k < i ==> (#[trigger] assignments@[k])@.len() == nwords,
            decreases assignments@.len() - i,
        {
            if assignments[i].len() != nwords {
                assert(assignments@[i as int]@.len() != words_for_bits(nbits as int));
                return Err(TicitError::new("categorical assignment length mismatch"));
            }
            i += 1;
        }
        let mut i: usize = 0;
        while i < probabilities.len()
            invariant
                i <= probabilities@.len(),
                nbits != 0,
                assignments@.len() == probabilities@.len(),
                *self == *old(self),
                forall|k: int|
                    0 <= k < assignments@.len() ==> (#[trigger] assignments@[k])@.len()
                        == words_for_bits(nbits as int),
                forall|k: int| 0 <= k < i ==> is_probability(#[trigger] probabilities@[k]),
            decreases probabilities@.len() - i,
        {
            match check_probability(probabilities[i]) {
                Ok(p) => {},
                Err(e) => {
                    assert(!is_probability(probabilities@[i as int]));
                    return Err(e);
                },
            }
            i += 1;
        }
        if !sums_to_one {
            return Err(
                TicitError::new("categorical symbolic distribution probabilities must sum to 1"),
            );
        }
        let ghost start = self.next_condition as int;
        let mut conditions: Vec<i32> = Vec::new();
        let mut i: usize = 0;
        while i < nbits
            invariant
                i <= nbits,
                start >= 1,
                start + nbits <= i32::MAX,
                self.next_condition == start + i,
                self.bernoulli_probabilities == old(self).bernoulli_probabilities,
                self.categorical_distributions == old(self).categorical_distributions,
                self.groups() == old(self).groups(),
                old(self).wf() ==> self.wf(),
                conditions@ == id_run(start, i as nat),
            decreases nbits - i,
        {
            let condition: i32 = self.fresh_condition();
            conditions.push(condition);
            assert(conditions@ =~= id_run(start, (i + 1) as nat));
            i += 1;
        }
        let group: usize = self.categorical_distributions.len();
        let rows: Vec<Vec<u64>> = copy_rows(assignments);
        let mut weights: Vec<u64> = Vec::new();
        weights.extend_from_slice(probabilities);
        assert(weights@ =~= probabilities@);
        self.categorical_distributions.push(
            SymbolicCategoricalDistribution {
                nbits,
                conditions: copy_conditions(&conditions),
                assignments: rows,
                probabilities: weights,
            },
        );
        let mut i: usize = 0;
        while i < conditions.len()
            invariant
                i <= conditions@.len(),
                start == old(self).next_condition,
                start >= 1,
                start + nbits <= i32::MAX,
                conditions@ == id_run(start, nbits as nat),
                self.next_condition == start + nbits,
                self.bernoulli_probabilities == old(self).bernoulli_probabilities,
                self.categorical_distributions@.len() == group + 1,
                group == old(self).categorical_distributions@.len(),
                self.categorical_distributions@.take(group as int) == old(
                    self,
                ).categorical_distributions@,
                self.categorical_distributions@[group as int].nbits == nbits,
                self.categorical_distributions@[group as int].conditions@ == conditions@,
                self.categorical_distributions@[group as int].assignments.deep_view()
                    == assignments.deep_view(),
                self.categorical_distributions@[group as int].probabilities@ == probabilities@,
                forall|c: i32| #[trigger]
                    self.groups().contains_key(c) == (old(self).groups().contains_key(c) || start <= c
                        < start + i),
                forall|c: i32| start <= c < start + i ==> #[trigger] self.groups()[c] == group,
                forall|c: i32|
                    old(self).groups().contains_key(c) && !(start <= c < start + nbits)
                        ==> #[trigger] self.groups()[c] == old(self).groups()[c],
            decreases conditions@.len() - i,
        {
            let ghost before = self.groups();
            self.condition_to_categorical.insert(conditions[i], group);
            assert(conditions@[i as int] == start + i);
            assert(self.groups() == before.insert(conditions@[i as int], group));
            i += 1;
        }
        proof {
            if old(self).wf() {
                assert forall|c: i32| #[trigger] self.groups().contains_key(c) implies 0 < c
                    < self.next_condition by {
                    assert(old(self).groups().contains_key(c) || start <= c);
                }
            }
        }
        Ok(conditions)
    }

    /// [`fresh_categorical_conditions`](Self::fresh_categorical_conditions) as
    /// expressions.
    pub fn fresh_categorical_bools(
        &mut self,
        nbits: usize,
        assignments: &[Vec<u64>],
        probabilities: &[u64],
        sums_to_one: bool,
    ) -> (r: Result<Vec<SymbolicBool>>)
        requires
            old(self).wf(),
            categorical_refusal(nbits, assignments@, probabilities@, sums_to_one) is None ==> old(
                self,
            ).next_condition + nbits <= i32::MAX,
        ensures
            final(self).wf(),
            final(self).bernoulli_probabilities == old(self).bernoulli_probabilities,
            match r {
                Ok(bools) => {
                    &&& categorical_refusal(nbits, assignments@, probabilities@, sums_to_one) is None
                    &&& final(self).next_condition == old(self).next_condition + nbits
                    &&& final(self).categorical_distributions@.drop_last() == old(
                        self,
                    ).categorical_distributions@
                    &&& final(self).categorical_distributions@.len() == old(
                        self,
                    ).categorical_distributions@.len() + 1
                    &&& forall|c: i32| #[trigger]
                        final(self).groups().contains_key(c) == (old(self).groups().contains_key(c)
                            || old(self).next_condition <= c < final(self).next_condition)
                    &&& forall|c: i32| #[trigger]
                        final(self).groups().contains_key(c) ==> final(self).groups()[c] == if c < old(
                            self,
                        ).next_condition {
                            old(self).groups()[c]
                        } else {
                            old(self).categorical_distributions@.len() as usize
                        }
                    &&& final(self).categorical_distributions@.last().conditions@ == id_run(
                        old(self).next_condition as int,
                        nbits as nat,
                    )
                    &&& final(self).categorical_distributions@.last().nbits == nbits
                    &&& final(self).categorical_distributions@.last().assignments.deep_view()
                        == assignments.deep_view()
                    &&& final(self).categorical_distributions@.last().probabilities@ == probabilities@
                    &&& bools@.len() == nbits
                    &&& forall|i: int|
                        0 <= i < nbits ==> (#[trigger] bools@[i]).wf() && !bools@[i].constant
                            && bools@[i].conditions@ == seq![
                            (old(self).next_condition + i) as i32,
                        ]
                },
                Err(e) => {
                    &&& categorical_refusal(nbits, assignments@, probabilities@, sums_to_one) == Some(e@)
                    &&& *final(self) == *old(self)
                },
            },
    {
        let ids: Vec<i32> = match self.fresh_categorical_conditions(
            nbits,
            assignments,
            probabilities,
            sums_to_one,
        ) {
            Ok(ids) => ids,
            Err(e) => {
                return Err(e);
            },
        };
        let ghost start = old(self).next_condition as int;
        assert(self.categorical_distributions@.drop_last() =~= self.categorical_distributions@.take(
            old(self).categorical_distributions@.len() as int,
        ));
        let mut bools: Vec<SymbolicBool> = Vec::new();
        let mut i: usize = 0;
        while i < ids.len()
            invariant
                i <= ids@.len(),
                start >= 1,
                start + nbits <= i32::MAX,
                ids@ == id_run(start, nbits as nat),
                bools@.len() == i,
                forall|k: int|
                    0 <= k < i ==> (#[trigger] bools@[k]).wf() && !bools@[k].constant
                        && bools@[k].conditions@ == seq![(start + k) as i32],
            decreases ids@.len() - i,
        {
            bools.push(symbolic_bool(ids[i]));
            i += 1;
        }
        Ok(bools)
    }
}

/// Copies packed rows.
pub fn copy_rows(rows: &[Vec<u64>]) -> (r: Vec<Vec<u64>>)
    ensures
        r.deep_view() == rows.deep_view(),
        r@.len() == rows@.len(),
        forall|i: int| 0 <= i < r@.len() ==> (#[trigger] r@[i])@ == rows@[i]@,
{
    let mut out: Vec<Vec<u64>> = Vec::new();
    let mut i: usize = 0;
    while i < rows.len()
        invariant
            i <= rows@.len(),
            out@.len() == i,
            forall|k: int| 0 <= k < i ==> (#[trigger] out@[k])@ == rows@[k]@,
        decreases rows@.len() - i,
    {
        let row: Vec<u64> = rows[i].clone();
        assert(row@ =~= rows@[i as int]@);
        out.push(row);
        i += 1;
    }
    assert forall|k: int| 0 <= k < out@.len() implies out.deep_view()[k] == rows.deep_view()[k] by {
        assert(out@[k]@ =~= rows@[k]@);
        assert(out.deep_view()[k] =~= rows.deep_view()[k]);
    }
    assert(out.deep_view() =~= rows.deep_view());
    out
}

} // verus!
