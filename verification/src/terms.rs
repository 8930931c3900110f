//! The live terms of the amplitude map.
//!
//! The map is kept as a list of label and amplitude pairs, strictly ascending by
//! label, so that a coset partner is found by bisection. Amplitudes are opaque
//! here: the list moves them, and only the caller computes with them.
use vstd::prelude::*;
use crate::label::Label;
use crate::pauli::tail_clear;

verus! {

/// Lexicographic order on word rows of one width.
pub open spec fn lex_less(a: Seq<u64>, b: Seq<u64>) -> bool {
    exists|k: int|
        0 <= k < a.len() && #[trigger] a[k] < b[k] && forall|j: int| 0 <= j < k ==> a[j] == b[j]
}

proof fn lemma_lex_transitive(a: Seq<u64>, b: Seq<u64>, c: Seq<u64>)
    requires
        a.len() == b.len(),
        b.len() == c.len(),
        lex_less(a, b),
        lex_less(b, c),
    ensures
        lex_less(a, c),
{
    let j = choose|k: int|
        0 <= k < a.len() && #[trigger] a[k] < b[k] && forall|j: int| 0 <= j < k ==> a[j] == b[j];
    let k = choose|k: int|
        0 <= k < b.len() && #[trigger] b[k] < c[k] && forall|j: int| 0 <= j < k ==> b[j] == c[j];
    let m = if j < k {
        j
    } else {
        k
    };
    assert(a[m] < c[m]);
}

pub proof fn lemma_lex_irreflexive(a: Seq<u64>)
    ensures
        !lex_less(a, a),
{
}

/// How two rows of words relate.
#[derive(Clone, Copy, PartialEq, Eq, Structural)]
pub enum Relation {
    Less,
    Equal,
    Greater,
}

/// Relates two rows of words of one width.
pub fn relate(a: &[u64], b: &[u64]) -> (r: Relation)
    requires
        a@.len() == b@.len(),
    ensures
        match r {
            Relation::Less => lex_less(a@, b@),
            Relation::Equal => a@ == b@,
            Relation::Greater => lex_less(b@, a@),
        },
{
    let mut k: usize = 0;
    while k < a.len()
        invariant
            k <= a@.len(),
            a@.len() == b@.len(),
            forall|j: int| 0 <= j < k ==> a@[j] == b@[j],
        decreases a@.len() - k,
    {
        if a[k] < b[k] {
            assert(a@[k as int] < b@[k as int]);
            return Relation::Less;
        }
        if b[k] < a[k] {
            assert(b@[k as int] < a@[k as int]);
            return Relation::Greater;
        }
        k += 1;
    }
    assert(a@ =~= b@);
    Relation::Equal
}

/// A label and its amplitude.
#[derive(Clone, Debug)]
pub struct Term<A> {
    pub label: Label,
    pub value: A,
}

/// The terms are strictly ascending by label, and every label has the width of
/// the register and acts on its qubits only.
pub open spec fn terms_wf<A>(terms: Seq<Term<A>>, words: int, n: int) -> bool {
    &&& forall|i: int|
        0 <= i < terms.len() ==> (#[trigger] terms[i]).label.0@.len() == words && tail_clear(
            terms[i].label.0@,
            n,
        )
    &&& forall|i: int, j: int|
        0 <= i < j < terms.len() ==> lex_less(#[trigger] terms[i].label.0@, #[trigger] terms[j].label.0@)
}

/// Whether the label `k` is live with the amplitude `v`.
pub open spec fn holds<A>(terms: Seq<Term<A>>, k: Seq<u64>, v: A) -> bool {
    exists|i: int| 0 <= i < terms.len() && (#[trigger] terms[i]).label.0@ == k && terms[i].value == v
}

/// Whether the label `k` is live.
pub open spec fn live<A>(terms: Seq<Term<A>>, k: Seq<u64>) -> bool {
    exists|i: int| 0 <= i < terms.len() && (#[trigger] terms[i]).label.0@ == k
}

/// The same label and amplitude.
pub open spec fn same_term<A>(a: Term<A>, b: Term<A>) -> bool {
    a.label.0@ == b.label.0@ && a.value == b.value
}

/// How many of the first `n` flags are set.
pub open spec fn count_set(flags: Seq<bool>, n: int) -> int
    decreases n,
{
    if n <= 0 {
        0
    } else {
        count_set(flags, n - 1) + if flags[n - 1] {
            1int
        } else {
            0int
        }
    }
}

pub proof fn lemma_count_set_bound(flags: Seq<bool>, n: int)
    requires
        0 <= n,
    ensures
        0 <= count_set(flags, n) <= n,
    decreases n,
{
    if n > 0 {
        lemma_count_set_bound(flags, n - 1);
    }
}

fn copy_label(label: &Label) -> (r: Label)
    ensures
        r.0@ == label.0@,
{
    let words: Vec<u64> = label.0.clone();
    assert(words@ =~= label.0@);
    Label(words)
}

fn copy_term<A: Copy>(term: &Term<A>) -> (r: Term<A>)
    ensures
        same_term(r, *term),
{
    Term { label: copy_label(&term.label), value: term.value }
}

/// Finds a label by bisection.
pub fn find<A>(terms: &Vec<Term<A>>, key: &[u64]) -> (r: Option<usize>)
    requires
        exists|n: int| terms_wf(terms@, key@.len() as int, n),
    ensures
        match r {
            Some(i) => i < terms@.len() && terms@[i as int].label.0@ == key@,
            None => !live(terms@, key@),
        },
{
    let ghost n = choose|n: int| terms_wf(terms@, key@.len() as int, n);
    let mut lo: usize = 0;
    let mut hi: usize = terms.len();
    while lo < hi
        invariant
            lo <= hi <= terms@.len(),
            terms_wf(terms@, key@.len() as int, n),
            forall|i: int| 0 <= i < lo ==> lex_less((#[trigger] terms@[i]).label.0@, key@),
            forall|i: int| hi <= i < terms@.len() ==> lex_less(key@, (#[trigger] terms@[i]).label.0@),
        decreases hi - lo,
    {
        let mid: usize = lo + (hi - lo) / 2;
        assert(terms@[mid as int].label.0@.len() == key@.len());
        match relate(terms[mid].label.0.as_slice(), key) {
            Relation::Equal => {
                return Some(mid);
            },
            Relation::Less => {
                proof {
                    assert forall|i: int| 0 <= i < mid + 1 implies lex_less(
                        (#[trigger] terms@[i]).label.0@,
                        key@,
                    ) by {
                        if i < mid {
                            assert(terms@[i].label.0@.len() == key@.len());
                            lemma_lex_transitive(
                                terms@[i].label.0@,
                                terms@[mid as int].label.0@,
                                key@,
                            );
                        }
                    }
                }
                lo = mid + 1;
            },
            Relation::Greater => {
                proof {
                    assert forall|i: int| mid <= i < terms@.len() implies lex_less(
                        key@,
                        (#[trigger] terms@[i]).label.0@,
                    ) by {
                        if i > mid {
                            assert(terms@[i].label.0@.len() == key@.len());
                            lemma_lex_transitive(
                                key@,
                                terms@[mid as int].label.0@,
                                terms@[i].label.0@,
                            );
                        }
                    }
                }
                hi = mid;
            },
        }
    }
    proof {
        if live(terms@, key@) {
            let i = choose|i: int| 0 <= i < terms@.len() && (#[trigger] terms@[i]).label.0@ == key@;
            lemma_lex_irreflexive(key@);
            if i < lo {
                assert(lex_less(terms@[i].label.0@, key@));
            } else {
                assert(lex_less(key@, terms@[i].label.0@));
            }
        }
    }
    None
}

/// `a` and `b` hold no label in common.
pub open spec fn disjoint_terms<A>(a: Seq<Term<A>>, b: Seq<Term<A>>) -> bool {
    forall|i: int, j: int|
        0 <= i < a.len() && 0 <= j < b.len() ==> (#[trigger] a[i]).label.0@ != (#[trigger] b[j]).label.0@
}

/// Merges two ascending term lists with no label in common.
pub(crate) fn merge_terms<A: Copy>(
    left: &Vec<Term<A>>,
    right: &Vec<Term<A>>,
    words: Ghost<int>,
    n: Ghost<int>,
) -> (r: Vec<Term<A>>)
    requires
        terms_wf(left@, words@, n@),
        terms_wf(right@, words@, n@),
        disjoint_terms(left@, right@),
    ensures
        terms_wf(r@, words@, n@),
        r@.len() == left@.len() + right@.len(),
        forall|k: Seq<u64>, v: A|
            #[trigger] holds(r@, k, v) <==> holds(left@, k, v) || holds(right@, k, v),
{
    let ghost words = words@;
    let ghost n = n@;
    let mut out: Vec<Term<A>> = Vec::new();
    let mut i: usize = 0;
    let mut j: usize = 0;
    while i < left.len() || j < right.len()
        invariant
            i <= left@.len(),
            j <= right@.len(),
            terms_wf(left@, words, n),
            terms_wf(right@, words, n),
            disjoint_terms(left@, right@),
            terms_wf(out@, words, n),
            out@.len() == i + j,
            forall|k: int| 0 <= k < out@.len() && i < left@.len() ==> lex_less(
                (#[trigger] out@[k]).label.0@,
                left@[i as int].label.0@,
            ),
            forall|k: int| 0 <= k < out@.len() && j < right@.len() ==> lex_less(
                (#[trigger] out@[k]).label.0@,
                right@[j as int].label.0@,
            ),
            forall|k: int|
                0 <= k < out@.len() ==> (exists|m: int|
                    0 <= m < i && same_term(#[trigger] left@[m], #[trigger] out@[k])) || (exists|m: int|
                    0 <= m < j && same_term(#[trigger] right@[m], out@[k])),
            forall|m: int|
                0 <= m < i ==> exists|k: int|
                    0 <= k < out@.len() && same_term(#[trigger] left@[m], #[trigger] out@[k]),
            forall|m: int|
                0 <= m < j ==> exists|k: int|
                    0 <= k < out@.len() && same_term(#[trigger] right@[m], #[trigger] out@[k]),
        decreases (left@.len() - i) + (right@.len() - j),
    {
        let take_left: bool = if j >= right.len() {
            true
        } else if i >= left.len() {
            false
        } else {
            assert(left@[i as int].label.0@.len() == words);
            assert(right@[j as int].label.0@.len() == words);
            assert(left@[i as int].label.0@ != right@[j as int].label.0@);
            match relate(left[i].label.0.as_slice(), right[j].label.0.as_slice()) {
                Relation::Less => true,
                _ => false,
            }
        };
        let ghost before = out@;
        let ghost i0 = i as int;
        let ghost j0 = j as int;
        if take_left {
            let term: Term<A> = copy_term(&left[i]);
            out.push(term);
            i += 1;
        } else {
            let term: Term<A> = copy_term(&right[j]);
            out.push(term);
            j += 1;
        }
        proof {
            let last = out@.len() - 1;
            assert forall|k: int| 0 <= k < last implies #[trigger] out@[k] == before[k] by {}
            if take_left {
                assert(same_term(left@[i0], out@[last]));
                assert forall|k: int| 0 <= k < out@.len() && i < left@.len() implies lex_less(
                    (#[trigger] out@[k]).label.0@,
                    left@[i as int].label.0@,
                ) by {
                    assert(lex_less(left@[i0].label.0@, left@[i as int].label.0@));
                    if k < last {
                        assert(out@[k] == before[k]);
                        assert(before[k].label.0@.len() == words);
                        assert(left@[i0].label.0@.len() == words);
                        assert(left@[i as int].label.0@.len() == words);
                        lemma_lex_transitive(
                            out@[k].label.0@,
                            left@[i0].label.0@,
                            left@[i as int].label.0@,
                        );
                    }
                }
            } else {
                assert(same_term(right@[j0], out@[last]));
                assert forall|k: int| 0 <= k < out@.len() && j < right@.len() implies lex_less(
                    (#[trigger] out@[k]).label.0@,
                    right@[j as int].label.0@,
                ) by {
                    assert(lex_less(right@[j0].label.0@, right@[j as int].label.0@));
                    if k < last {
                        assert(out@[k] == before[k]);
                        assert(before[k].label.0@.len() == words);
                        assert(right@[j0].label.0@.len() == words);
                        assert(right@[j as int].label.0@.len() == words);
                        lemma_lex_transitive(
                            out@[k].label.0@,
                            right@[j0].label.0@,
                            right@[j as int].label.0@,
                        );
                    }
                }
            }
            assert forall|k: int| 0 <= k < out@.len() implies (exists|m: int|
                0 <= m < i && same_term(#[trigger] left@[m], #[trigger] out@[k])) || (exists|m: int|
                0 <= m < j && same_term(#[trigger] right@[m], out@[k])) by {
                if k < last {
                    assert(out@[k] == before[k]);
                } else if take_left {
                    assert(same_term(left@[i0], out@[k]));
                } else {
                    assert(same_term(right@[j0], out@[k]));
                }
            }
            assert forall|m: int| 0 <= m < i implies exists|k: int|
                0 <= k < out@.len() && same_term(#[trigger] left@[m], #[trigger] out@[k]) by {
                if m < i0 {
                    let k = choose|k: int| 0 <= k < before.len() && same_term(left@[m], #[trigger] before[k]);
                    assert(out@[k] == before[k]);
                } else {
                    assert(same_term(left@[m], out@[last]));
                }
            }
            assert forall|m: int| 0 <= m < j implies exists|k: int|
                0 <= k < out@.len() && same_term(#[trigger] right@[m], #[trigger] out@[k]) by {
                if m < j0 {
                    let k = choose|k: int| 0 <= k < before.len() && same_term(right@[m], #[trigger] before[k]);
                    assert(out@[k] == before[k]);
                } else {
                    assert(same_term(right@[m], out@[last]));
                }
            }
        }
    }
    proof {
        assert forall|k: Seq<u64>, v: A|
            #[trigger] holds(out@, k, v) <==> holds(left@, k, v) || holds(right@, k, v) by {
            if holds(out@, k, v) {
                let p = choose|p: int|
                    0 <= p < out@.len() && (#[trigger] out@[p]).label.0@ == k && out@[p].value == v;
                if exists|m: int| 0 <= m < i && same_term(#[trigger] left@[m], out@[p]) {
                    let m = choose|m: int| 0 <= m < i && same_term(#[trigger] left@[m], out@[p]);
                    assert(left@[m].label.0@ == k && left@[m].value == v);
                } else {
                    let m = choose|m: int| 0 <= m < j && same_term(#[trigger] right@[m], out@[p]);
                    assert(right@[m].label.0@ == k && right@[m].value == v);
                }
            }
            if holds(left@, k, v) {
                let m = choose|m: int|
                    0 <= m < left@.len() && (#[trigger] left@[m]).label.0@ == k && left@[m].value == v;
                let p = choose|p: int| 0 <= p < out@.len() && same_term(left@[m], #[trigger] out@[p]);
                assert(out@[p].label.0@ == k && out@[p].value == v);
            }
            if holds(right@, k, v) {
                let m = choose|m: int|
                    0 <= m < right@.len() && (#[trigger] right@[m]).label.0@ == k && right@[m].value
                        == v;
                let p = choose|p: int| 0 <= p < out@.len() && same_term(right@[m], #[trigger] out@[p]);
                assert(out@[p].label.0@ == k && out@[p].value == v);
            }
        }
    }
    out
}

/// Labels that are distinct and fit the register, in any order.
pub open spec fn distinct_terms<A>(terms: Seq<Term<A>>, words: int, n: int) -> bool {
    &&& forall|i: int|
        0 <= i < terms.len() ==> (#[trigger] terms[i]).label.0@.len() == words && tail_clear(
            terms[i].label.0@,
            n,
        )
    &&& forall|i: int, j: int|
        0 <= i < j < terms.len() ==> (#[trigger] terms[i]).label.0@ != (#[trigger] terms[j]).label.0@
}

/// Sorts the terms `lo..hi` by label.
fn sort_range<A: Copy>(
    terms: &Vec<Term<A>>,
    lo: usize,
    hi: usize,
    words: Ghost<int>,
    n: Ghost<int>,
) -> (r: Vec<Term<A>>)
    requires
        lo <= hi <= terms@.len(),
        distinct_terms(terms@, words@, n@),
    ensures
        terms_wf(r@, words@, n@),
        r@.len() == hi - lo,
        forall|k: Seq<u64>, v: A|
            #[trigger] holds(r@, k, v) <==> holds(terms@.subrange(lo as int, hi as int), k, v),
    decreases hi - lo,
{
    if hi == lo {
        let r: Vec<Term<A>> = Vec::new();
        assert(terms@.subrange(lo as int, hi as int) =~= r@);
        return r;
    }
    if hi - lo == 1 {
        let mut r: Vec<Term<A>> = Vec::new();
        let term: Term<A> = copy_term(&terms[lo]);
        r.push(term);
        proof {
            let s = terms@.subrange(lo as int, hi as int);
            assert(s[0] == terms@[lo as int]);
            assert forall|k: Seq<u64>, v: A| #[trigger] holds(r@, k, v) <==> holds(s, k, v) by {
                if holds(r@, k, v) {
                    assert(s[0].label.0@ == k && s[0].value == v);
                }
                if holds(s, k, v) {
                    assert(r@[0].label.0@ == k && r@[0].value == v);
                }
            }
        }
        return r;
    }
    let mid: usize = lo + (hi - lo) / 2;
    let left: Vec<Term<A>> = sort_range(terms, lo, mid, words, n);
    let right: Vec<Term<A>> = sort_range(terms, mid, hi, words, n);
    proof {
        let l = terms@.subrange(lo as int, mid as int);
        let m = terms@.subrange(mid as int, hi as int);
        assert forall|i: int, j: int|
            0 <= i < left@.len() && 0 <= j < right@.len() implies (#[trigger] left@[i]).label.0@ != (
        #[trigger] right@[j]).label.0@ by {
            assert(holds(left@, left@[i].label.0@, left@[i].value));
            assert(holds(right@, right@[j].label.0@, right@[j].value));
            assert(holds(l, left@[i].label.0@, left@[i].value));
            assert(holds(m, right@[j].label.0@, right@[j].value));
            let a = choose|a: int|
                0 <= a < l.len() && (#[trigger] l[a]).label.0@ == left@[i].label.0@ && l[a].value
                    == left@[i].value;
            let b = choose|b: int|
                0 <= b < m.len() && (#[trigger] m[b]).label.0@ == right@[j].label.0@ && m[b].value
                    == right@[j].value;
            assert(l[a] == terms@[lo + a]);
            assert(m[b] == terms@[mid + b]);
        }
    }
    let r: Vec<Term<A>> = merge_terms(&left, &right, words, n);
    proof {
        let l = terms@.subrange(lo as int, mid as int);
        let m = terms@.subrange(mid as int, hi as int);
        let s = terms@.subrange(lo as int, hi as int);
        assert forall|k: Seq<u64>, v: A| #[trigger] holds(r@, k, v) <==> holds(s, k, v) by {
            assert(holds(r@, k, v) <==> holds(left@, k, v) || holds(right@, k, v));
            assert(holds(left@, k, v) <==> holds(l, k, v));
            assert(holds(right@, k, v) <==> holds(m, k, v));
            if holds(l, k, v) {
                let a = choose|a: int| 0 <= a < l.len() && (#[trigger] l[a]).label.0@ == k && l[a].value == v;
                assert(s[a] == l[a]);
            }
            if holds(m, k, v) {
                let b = choose|b: int| 0 <= b < m.len() && (#[trigger] m[b]).label.0@ == k && m[b].value == v;
                assert(s[mid - lo + b] == m[b]);
            }
            if holds(s, k, v) {
                let c = choose|c: int| 0 <= c < s.len() && (#[trigger] s[c]).label.0@ == k && s[c].value == v;
                if c < mid - lo {
                    assert(l[c] == s[c]);
                } else {
                    assert(m[c - (mid - lo)] == s[c]);
                }
            }
        }
    }
    r
}

/// Sorts terms with distinct labels.
pub(crate) fn sort_terms<A: Copy>(terms: &Vec<Term<A>>, words: Ghost<int>, n: Ghost<int>) -> (r: Vec<Term<A>>)
    requires
        distinct_terms(terms@, words@, n@),
    ensures
        terms_wf(r@, words@, n@),
        r@.len() == terms@.len(),
        forall|k: Seq<u64>, v: A| #[trigger] holds(r@, k, v) <==> holds(terms@, k, v),
{
    let r: Vec<Term<A>> = sort_range(terms, 0, terms.len(), words, n);
    assert(terms@.subrange(0, terms@.len() as int) =~= terms@);
    r
}

} // verus!
