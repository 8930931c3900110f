//! Symbol values, records and detectors: one bit-plane of shots per condition,
//! record or detector, combined a word (64 shots) at a time.
use vstd::prelude::*;
use crate::bits::{row_bit, symbol_bit, symbol_bit_mask, symbol_word_index, word_bit, words_for_bits};
use crate::errors::{Result, TicitError};
use crate::executor::{records_end, resize_list, BatchFactoredExecutorState};
use crate::planes::{lemma_plane_index, lemma_plane_update, plane_bit, plane_offset};
use crate::symbolic::{canonical, lemma_xor_of_push, masks_select, xor_of, SymbolicBoolEvaluationPlan};

verus! {

broadcast use crate::bits::group_word_bits;

/// Plans with more conditions than this check their assignment in bulk.
pub const BATCH_SCALAR_SYMBOLIC_EVAL_THRESHOLD: usize = 32;

// ---------------------------------------------------------------------------
// Rows of live shots
// ---------------------------------------------------------------------------
/// The bit of a shot; shots past the row have a clear bit.
pub fn batch_bit_at(bits: &[u64], shot: usize) -> (r: bool)
    ensures
        r == row_bit(bits@, shot as int),
{
    let word: usize = shot / 64;
    if word >= bits.len() {
        return false;
    }
    let offset: u64 = (shot % 64) as u64;
    (bits[word] >> offset) & 1 == 1
}

/// Every live shot carries `value`, every other bit is clear.
pub fn fill_batch_bits<A: Copy>(
    bits: &mut Vec<u64>,
    runtime: &BatchFactoredExecutorState<A>,
    value: bool,
)
    ensures
        final(bits)@.len() == if old(bits)@.len() < runtime.batch_words {
            runtime.batch_words as int
        } else {
            old(bits)@.len() as int
        },
        forall|i: int|
            0 <= i < 64 * final(bits)@.len() ==> #[trigger] row_bit(final(bits)@, i) == (value && i
                < runtime.active_shots),
{
    let words: usize = runtime.batch_words;
    if bits.len() < words {
        resize_list(bits, words, 0u64);
    }
    let n: usize = bits.len();
    let mut word: usize = 0;
    while word < n
        invariant
            word <= n,
            n == bits@.len(),
            forall|i: int|
                0 <= i < 64 * word ==> #[trigger] row_bit(bits@, i) == (value && i
                    < runtime.active_shots),
        decreases n - word,
    {
        let ghost before = bits@;
        let mask: u64 = runtime.live_word_mask(word);
        bits.set(
            word,
            if value {
                mask
            } else {
                0
            },
        );
        proof {
            assert forall|i: int| 0 <= i < 64 * (word + 1) implies #[trigger] row_bit(bits@, i) == (value
                && i < runtime.active_shots) by {
                if i < 64 * word {
                    assert(row_bit(before, i) == (value && i < runtime.active_shots));
                } else {
                    assert(word_bit(mask, i % 64) == (64 * word + i % 64 < runtime.active_shots));
                }
            }
        }
        word += 1;
    }
}

/// Clears every bit that is not a live shot's.
pub fn mask_batch_bits<A: Copy>(bits: &mut Vec<u64>, runtime: &BatchFactoredExecutorState<A>)
    ensures
        final(bits)@.len() == old(bits)@.len(),
        forall|i: int|
            0 <= i < 64 * final(bits)@.len() ==> #[trigger] row_bit(final(bits)@, i) == (row_bit(
                old(bits)@,
                i,
            ) && i < runtime.active_shots),
{
    let n: usize = bits.len();
    let ghost start = bits@;
    let mut word: usize = 0;
    while word < n
        invariant
            word <= n,
            n == bits@.len(),
            n == start.len(),
            forall|w: int| word <= w < n ==> #[trigger] bits@[w] == start[w],
            forall|i: int|
                0 <= i < 64 * word ==> #[trigger] row_bit(bits@, i) == (row_bit(start, i) && i
                    < runtime.active_shots),
        decreases n - word,
    {
        let ghost before = bits@;
        let mask: u64 = runtime.live_word_mask(word);
        let masked: u64 = bits[word] & mask;
        bits.set(word, masked);
        proof {
            assert forall|i: int| 0 <= i < 64 * (word + 1) implies #[trigger] row_bit(bits@, i) == (
            row_bit(start, i) && i < runtime.active_shots) by {
                if i < 64 * word {
                    assert(row_bit(before, i) == (row_bit(start, i) && i < runtime.active_shots));
                } else {
                    assert(word_bit(mask, i % 64) == (64 * word + i % 64 < runtime.active_shots));
                }
            }
        }
        word += 1;
    }
}

/// Flips every live shot and clears every other bit.
pub fn invert_batch_bits<A: Copy>(bits: &mut Vec<u64>, runtime: &BatchFactoredExecutorState<A>)
    ensures
        final(bits)@.len() == old(bits)@.len(),
        forall|i: int|
            0 <= i < 64 * final(bits)@.len() ==> #[trigger] row_bit(final(bits)@, i) == (!row_bit(
                old(bits)@,
                i,
            ) && i < runtime.active_shots),
{
    let n: usize = bits.len();
    let ghost start = bits@;
    let mut word: usize = 0;
    while word < n
        invariant
            word <= n,
            n == bits@.len(),
            n == start.len(),
            forall|w: int| word <= w < n ==> #[trigger] bits@[w] == start[w],
            forall|i: int|
                0 <= i < 64 * word ==> #[trigger] row_bit(bits@, i) == (!row_bit(start, i) && i
                    < runtime.active_shots),
        decreases n - word,
    {
        let ghost before = bits@;
        let mask: u64 = runtime.live_word_mask(word);
        let flipped: u64 = !bits[word] & mask;
        bits.set(word, flipped);
        proof {
            assert forall|i: int| 0 <= i < 64 * (word + 1) implies #[trigger] row_bit(bits@, i) == (
            !row_bit(start, i) && i < runtime.active_shots) by {
                if i < 64 * word {
                    assert(row_bit(before, i) == (!row_bit(start, i) && i < runtime.active_shots));
                } else {
                    assert(word_bit(mask, i % 64) == (64 * word + i % 64 < runtime.active_shots));
                }
            }
        }
        word += 1;
    }
}

/// The signs of the live shots, taken together.
#[derive(Clone, Copy, Debug, PartialEq, Eq, Structural)]
pub enum BatchSignMode {
    AllMinus,
    AllPlus,
    Mixed,
}

/// Whether the live shots share one sign. A batch without live shots counts as
/// all minus.
pub fn batch_sign_mode<A: Copy>(
    runtime: &BatchFactoredExecutorState<A>,
    sign_bits: &[u64],
) -> (r: BatchSignMode)
    ensures
        (r == BatchSignMode::AllMinus) == forall|s: int|
            0 <= s < runtime.active_shots ==> !#[trigger] row_bit(sign_bits@, s),
        r == BatchSignMode::AllPlus ==> forall|s: int|
            0 <= s < runtime.active_shots ==> #[trigger] row_bit(sign_bits@, s),
        r == BatchSignMode::Mixed ==> exists|s: int|
            0 <= s < runtime.active_shots && !#[trigger] row_bit(sign_bits@, s),
{
    let mut saw_one: bool = false;
    let mut saw_zero: bool = false;
    let ghost mut one: int = 0;
    let ghost mut off: int = 0;
    let shots: usize = runtime.active_shots;
    let mut shot: usize = 0;
    while shot < shots
        invariant
            shot <= shots,
            shots == runtime.active_shots,
            !(saw_one && saw_zero),
            saw_one ==> 0 <= one < shot && row_bit(sign_bits@, one),
            saw_zero ==> 0 <= off < shot && !row_bit(sign_bits@, off),
            !saw_one ==> forall|s: int| 0 <= s < shot ==> !#[trigger] row_bit(sign_bits@, s),
            !saw_zero ==> forall|s: int| 0 <= s < shot ==> #[trigger] row_bit(sign_bits@, s),
        decreases shots - shot,
    {
        if batch_bit_at(sign_bits, shot) {
            saw_one = true;
            proof {
                one = shot as int;
            }
        } else {
            saw_zero = true;
            proof {
                off = shot as int;
            }
        }
        if saw_one && saw_zero {
            return BatchSignMode::Mixed;
        }
        shot += 1;
    }
    if saw_one {
        BatchSignMode::AllPlus
    } else {
        BatchSignMode::AllMinus
    }
}

// ---------------------------------------------------------------------------
// Assignment
// ---------------------------------------------------------------------------
impl<A: Copy> BatchFactoredExecutorState<A> {
    /// The condition is a symbol of the table.
    pub open spec fn has_slot(&self, condition: i32) -> bool {
        0 < condition <= self.nsymbols
    }

    /// The conditions that have concrete values.
    pub open spec fn known(&self) -> Set<i32> {
        Set::new(|c: i32| c > 0 && self.assigned(c))
    }

    /// The live shots of a condition hold the row.
    pub open spec fn holds(&self, condition: i32, bits: Seq<u64>) -> bool {
        forall|s: int|
            0 <= s < self.active_shots ==> #[trigger] self.value_bit(condition, s) == row_bit(bits, s)
    }
}

pub fn check_batch_symbol_slot<A: Copy>(
    runtime: &BatchFactoredExecutorState<A>,
    condition: i32,
) -> (r: Result<()>)
    ensures
        match r {
            Ok(_) => runtime.has_slot(condition),
            Err(e) => !runtime.has_slot(condition) && e@
                == "symbolic condition exceeds batch executor symbol table"@,
        },
{
    if condition <= 0 || condition as usize > runtime.nsymbols {
        return Err(TicitError::new("symbolic condition exceeds batch executor symbol table"));
    }
    Ok(())
}

pub fn batch_symbol_assigned<A: Copy>(
    runtime: &BatchFactoredExecutorState<A>,
    condition: i32,
) -> (r: Result<bool>)
    requires
        runtime.planes_wf(),
    ensures
        match r {
            Ok(assigned) => runtime.has_slot(condition) && assigned == runtime.assigned(condition),
            Err(e) => !runtime.has_slot(condition) && e@
                == "symbolic condition exceeds batch executor symbol table"@,
        },
{
    match check_batch_symbol_slot(runtime, condition) {
        Ok(_) => {},
        Err(e) => {
            return Err(e);
        },
    }
    let index: usize = (condition - 1) as usize;
    Ok(batch_bit_at(runtime.assigned_words.as_slice(), index))
}

/// Writes the live bits of a row into a plane and clears the rest of the plane.
pub fn write_plane<A: Copy>(
    words: &mut Vec<u64>,
    runtime: &BatchFactoredExecutorState<A>,
    plane: usize,
    bits: &[u64],
    Ghost(planes): Ghost<int>,
)
    requires
        plane < planes,
        old(words)@.len() == planes * runtime.batch_words,
        runtime.batch_words == words_for_bits(runtime.batches as int),
        runtime.active_shots <= runtime.batches,
        bits@.len() >= runtime.live_words(),
    ensures
        final(words)@.len() == old(words)@.len(),
        forall|q: int, i: int|
            0 <= q < planes && 0 <= i < 64 * runtime.batch_words ==> #[trigger] plane_bit(
                final(words)@,
                runtime.batch_words as int,
                q,
                i,
            ) == if q == plane {
                i < runtime.active_shots && row_bit(bits@, i)
            } else {
                plane_bit(old(words)@, runtime.batch_words as int, q, i)
            },
{
    let stride: usize = runtime.batch_words;
    let ghost start = words@;
    let ghost st = stride as int;
    let len: usize = words.len();
    let mut word: usize = 0;
    while word < stride
        invariant
            word <= stride,
            stride == st,
            stride == runtime.batch_words,
            plane < planes,
            len == words@.len(),
            words@.len() == planes * st,
            start.len() == planes * st,
            stride == words_for_bits(runtime.batches as int),
            runtime.active_shots <= runtime.batches,
            bits@.len() >= runtime.live_words(),
            forall|q: int, i: int|
                0 <= q < planes && 0 <= i < 64 * st ==> #[trigger] plane_bit(words@, st, q, i) == if q
                    == plane && i < 64 * word {
                    i < runtime.active_shots && row_bit(bits@, i)
                } else {
                    plane_bit(start, st, q, i)
                },
        decreases stride - word,
    {
        proof {
            lemma_plane_index(st, planes, plane as int, word as int);
        }
        let ghost before = words@;
        let mask: u64 = runtime.live_word_mask(word);
        let raw: u64 = if word < bits.len() {
            bits[word]
        } else {
            0
        };
        let value: u64 = raw & mask;
        let at: usize = plane_offset(stride, plane, word);
        words.set(at, value);
        proof {
            assert forall|q: int, i: int| 0 <= q < planes && 0 <= i < 64 * st implies #[trigger] plane_bit(
                words@,
                st,
                q,
                i,
            ) == if q == plane && i < 64 * (word + 1) {
                i < runtime.active_shots && row_bit(bits@, i)
            } else {
                plane_bit(start, st, q, i)
            } by {
                lemma_plane_update(before, st, planes, plane as int, word as int, value, q, i);
                assert(plane_bit(before, st, q, i) == if q == plane && i < 64 * word {
                    i < runtime.active_shots && row_bit(bits@, i)
                } else {
                    plane_bit(start, st, q, i)
                });
                assert(word_bit(mask, i % 64) == (64 * word + i % 64 < runtime.active_shots));
            }
        }
        word += 1;
    }
}

/// Whether the live shots of a condition hold the row.
fn batch_symbol_matches_bits<A: Copy>(
    runtime: &BatchFactoredExecutorState<A>,
    condition: i32,
    bits: &[u64],
) -> (r: Result<bool>)
    requires
        runtime.planes_wf(),
        runtime.has_slot(condition),
    ensures
        match r {
            Ok(same) => bits@.len() >= runtime.live_words() && same == runtime.holds(condition, bits@),
            Err(e) => bits@.len() < runtime.live_words() && e@ == "batch bit vector is too short"@,
        },
{
    let nwords: usize = runtime.live_word_count();
    if bits.len() < nwords {
        return Err(TicitError::new("batch bit vector is too short"));
    }
    let plane: usize = (condition - 1) as usize;
    let ghost st = runtime.batch_words as int;
    let len: usize = runtime.value_words.len();
    let mut word: usize = 0;
    while word < nwords
        invariant
            word <= nwords,
            nwords == runtime.live_words(),
            runtime.planes_wf(),
            runtime.has_slot(condition),
            plane == condition - 1,
            st == runtime.batch_words,
            bits@.len() >= nwords,
            len == runtime.value_words@.len(),
            forall|s: int|
                0 <= s < runtime.active_shots && s < 64 * word ==> #[trigger] runtime.value_bit(
                    condition,
                    s,
                ) == row_bit(bits@, s),
        decreases nwords - word,
    {
        proof {
            lemma_plane_index(st, runtime.nsymbols as int, plane as int, word as int);
        }
        let mask: u64 = runtime.live_word_mask(word);
        let actual: u64 = runtime.value_words[plane_offset(runtime.batch_words, plane, word)];
        let differing: u64 = (actual ^ bits[word]) & mask;
        if differing != 0 {
            proof {
                if runtime.holds(condition, bits@) {
                    assert forall|i: int| 0 <= i < 64 implies !#[trigger] word_bit(differing, i) by {
                        let s = 64 * word + i;
                        assert(s / 64 == word && s % 64 == i);
                        assert(word_bit(mask, i) == (s < runtime.active_shots));
                        if s < runtime.active_shots {
                            assert(runtime.value_bit(condition, s) == row_bit(bits@, s));
                        }
                    }
                    crate::bits::lemma_word_zero(differing);
                }
            }
            return Ok(false);
        }
        proof {
            assert forall|s: int|
                0 <= s < runtime.active_shots && s < 64 * (word + 1) implies #[trigger] runtime.value_bit(
                condition,
                s,
            ) == row_bit(bits@, s) by {
                if s >= 64 * word {
                    assert(s / 64 == word);
                    assert(word_bit(mask, s % 64) == (64 * word + s % 64 < runtime.active_shots));
                    assert(!word_bit(differing, s % 64));
                }
            }
        }
        word += 1;
    }
    Ok(true)
}

/// Gives a condition its values. Assigning again must match what is stored.
pub fn assign_batch_symbol<A: Copy>(
    runtime: &mut BatchFactoredExecutorState<A>,
    condition: i32,
    bits: &[u64],
) -> (r: Result<()>)
    requires
        old(runtime).planes_wf(),
    ensures
        *final(runtime) == (BatchFactoredExecutorState {
            value_words: final(runtime).value_words,
            assigned_words: final(runtime).assigned_words,
            ..*old(runtime)
        }),
        match r {
            Ok(_) => {
                &&& old(runtime).has_slot(condition)
                &&& bits@.len() >= old(runtime).live_words()
                &&& old(runtime).assigned(condition) ==> old(runtime).holds(condition, bits@)
                    && *final(runtime) == *old(runtime)
                &&& symbol_written(old(runtime), final(runtime), condition, bits@)
            },
            Err(e) => {
                ||| !old(runtime).has_slot(condition) && *final(runtime) == *old(runtime) && e@
                    == "symbolic condition exceeds batch executor symbol table"@
                ||| old(runtime).has_slot(condition) && bits@.len() < old(runtime).live_words() && e@
                    == "batch bit vector is too short"@
                ||| old(runtime).has_slot(condition) && old(runtime).assigned(condition) && !old(
                    runtime,
                ).holds(condition, bits@) && *final(runtime) == *old(runtime) && e@
                    == "symbolic condition was assigned inconsistent concrete batch values"@
            },
        },
{
    match batch_symbol_assigned(runtime, condition) {
        Err(e) => {
            return Err(e);
        },
        Ok(true) => {
            return match batch_symbol_matches_bits(runtime, condition, bits) {
                Err(e) => Err(e),
                Ok(true) => Ok(()),
                Ok(false) => Err(
                    TicitError::new(
                        "symbolic condition was assigned inconsistent concrete batch values",
                    ),
                ),
            };
        },
        Ok(false) => {},
    }
    let word: usize = symbol_word_index(condition);
    let mask: u64 = symbol_bit_mask(condition);
    let ghost marks = runtime.assigned_words@;
    let marked: u64 = runtime.assigned_words[word] | mask;
    runtime.assigned_words.set(word, marked);
    if bits.len() < runtime.live_word_count() {
        return Err(TicitError::new("batch bit vector is too short"));
    }
    let plane: usize = (condition - 1) as usize;
    let mut values: Vec<u64> = Vec::new();
    std::mem::swap(&mut values, &mut runtime.value_words);
    let ghost nsymbols = runtime.nsymbols as int;
    write_plane(&mut values, runtime, plane, bits, Ghost(nsymbols));
    std::mem::swap(&mut values, &mut runtime.value_words);
    proof {
        assert forall|c: i32| c > 0 implies #[trigger] runtime.assigned(c) == (old(runtime).assigned(c)
            || c == condition) by {
            let i = symbol_bit(c as int);
            if i < 64 * marks.len() {
                crate::bits::lemma_row_bit_update(marks, word as int, marked, i);
            }
        }
        assert forall|c: i32, s: int|
            old(runtime).has_slot(c) && 0 <= s < runtime.active_shots implies #[trigger] runtime.value_bit(
            c,
            s,
        ) == if c == condition {
            row_bit(bits@, s)
        } else {
            old(runtime).value_bit(c, s)
        } by {
            assert(plane_bit(runtime.value_words@, runtime.batch_words as int, c - 1, s) == if c - 1
                == plane {
                s < runtime.active_shots && row_bit(bits@, s)
            } else {
                plane_bit(old(runtime).value_words@, runtime.batch_words as int, c - 1, s)
            });
        }
        assert forall|c: i32| #[trigger] runtime.assigned(c) && c > 0 implies c <= runtime.nsymbols by {
            assert(runtime.assigned(c) == (old(runtime).assigned(c) || c == condition));
        }
    }
    Ok(())
}

/// The condition holds the row, and nothing else of the symbol table changed.
pub open spec fn symbol_written<A: Copy>(
    before: &BatchFactoredExecutorState<A>,
    after: &BatchFactoredExecutorState<A>,
    condition: i32,
    bits: Seq<u64>,
) -> bool {
    &&& after.planes_wf()
    &&& forall|c: i32|
        c > 0 ==> #[trigger] after.assigned(c) == (before.assigned(c) || c == condition)
    &&& forall|c: i32, s: int|
        before.has_slot(c) && 0 <= s < before.active_shots ==> #[trigger] after.value_bit(c, s)
            == if c == condition {
            row_bit(bits, s)
        } else {
            before.value_bit(c, s)
        }
}

// ---------------------------------------------------------------------------
// Batched symbolic evaluation
// ---------------------------------------------------------------------------
/// Why the listed conditions cannot all be read, from `from` on, if they cannot.
pub open spec fn scan_refusal(
    nsymbols: int,
    known: Set<i32>,
    conditions: Seq<i32>,
    from: int,
) -> Option<Seq<char>>
    decreases conditions.len() - from,
{
    if from >= conditions.len() {
        None
    } else if !(0 < conditions[from] <= nsymbols) {
        Some("symbolic condition exceeds batch executor symbol table"@)
    } else if !known.contains(conditions[from]) {
        Some("symbolic condition expression has no concrete batch value"@)
    } else {
        scan_refusal(nsymbols, known, conditions, from + 1)
    }
}

/// Every condition has concrete values.
pub open spec fn all_known(known: Set<i32>, conditions: Seq<i32>) -> bool {
    forall|k: int| 0 <= k < conditions.len() ==> known.contains(#[trigger] conditions[k])
}

/// Why a plan cannot be evaluated, if it cannot. Long plans check their conditions
/// in one go and report no single one.
pub open spec fn plan_refusal(
    nsymbols: int,
    known: Set<i32>,
    plan: SymbolicBoolEvaluationPlan,
) -> Option<Seq<char>> {
    if plan.conditions@.len() <= BATCH_SCALAR_SYMBOLIC_EVAL_THRESHOLD {
        scan_refusal(nsymbols, known, plan.conditions@, 0)
    } else if all_known(known, plan.conditions@) {
        None
    } else {
        Some("symbolic condition expression has no concrete batch value"@)
    }
}

/// Nothing stands in the way exactly when every condition is known.
pub proof fn lemma_scan_refusal(nsymbols: int, known: Set<i32>, conditions: Seq<i32>, from: int)
    requires
        forall|c: i32| #[trigger] known.contains(c) ==> 0 < c <= nsymbols,
        0 <= from,
        forall|k: int| 0 <= k < from && k < conditions.len() ==> known.contains(#[trigger] conditions[k]),
    ensures
        (scan_refusal(nsymbols, known, conditions, from) is None) == all_known(known, conditions),
    decreases conditions.len() - from,
{
    if from < conditions.len() {
        let c = conditions[from];
        if known.contains(c) {
            lemma_scan_refusal(nsymbols, known, conditions, from + 1);
        }
    }
}

/// A plan can be evaluated exactly when its conditions are known.
pub proof fn lemma_plan_refusal(nsymbols: int, known: Set<i32>, plan: SymbolicBoolEvaluationPlan)
    requires
        forall|c: i32| #[trigger] known.contains(c) ==> 0 < c <= nsymbols,
    ensures
        (plan_refusal(nsymbols, known, plan) is None) == all_known(known, plan.conditions@),
{
    lemma_scan_refusal(nsymbols, known, plan.conditions@, 0);
}

fn check_each_assigned<A: Copy>(
    plan: &SymbolicBoolEvaluationPlan,
    runtime: &BatchFactoredExecutorState<A>,
) -> (r: Result<()>)
    requires
        runtime.planes_wf(),
    ensures
        match r {
            Ok(_) => scan_refusal(
                runtime.nsymbols as int,
                runtime.known(),
                plan.conditions@,
                0,
            ) is None,
            Err(e) => scan_refusal(
                runtime.nsymbols as int,
                runtime.known(),
                plan.conditions@,
                0,
            ) == Some(e@),
        },
{
    let mut k: usize = 0;
    while k < plan.conditions.len()
        invariant
            k <= plan.conditions@.len(),
            runtime.planes_wf(),
            scan_refusal(
                runtime.nsymbols as int,
                runtime.known(),
                plan.conditions@,
                0,
            ) == scan_refusal(
                runtime.nsymbols as int,
                runtime.known(),
                plan.conditions@,
                k as int,
            ),
        decreases plan.conditions@.len() - k,
    {
        match batch_symbol_assigned(runtime, plan.conditions[k]) {
            Err(e) => {
                return Err(e);
            },
            Ok(false) => {
                return Err(
                    TicitError::new("symbolic condition expression has no concrete batch value"),
                );
            },
            Ok(true) => {},
        }
        k += 1;
    }
    Ok(())
}

/// One test of the assignment words against the masks of the plan.
fn masks_assigned<A: Copy>(
    plan: &SymbolicBoolEvaluationPlan,
    runtime: &BatchFactoredExecutorState<A>,
) -> (r: bool)
    requires
        runtime.planes_wf(),
        plan.wf(),
    ensures
        r == all_known(runtime.known(), plan.conditions@),
{
    let ghost indices = plan.word_indices@;
    let ghost masks = plan.word_masks@;
    let mut missing: bool = false;
    let ghost mut absent: int = 0;
    let mut i: usize = 0;
    while i < plan.word_indices.len()
        invariant
            i <= plan.word_indices@.len(),
            indices == plan.word_indices@,
            masks == plan.word_masks@,
            plan.wf(),
            missing ==> 0 <= absent < i32::MAX && masks_select(indices, masks, absent) && !row_bit(
                runtime.assigned_words@,
                absent,
            ),
            !missing ==> forall|n: int, j: int|
                0 <= n < i && 0 <= j < 64 && #[trigger] word_bit(masks[n], j) ==> row_bit(
                    runtime.assigned_words@,
                    64 * indices[n] + j,
                ),
        decreases plan.word_indices@.len() - i,
    {
        let word: usize = plan.word_indices[i];
        let mask: u64 = plan.word_masks[i];
        let marks: u64 = if word < runtime.assigned_words.len() {
            runtime.assigned_words[word]
        } else {
            0
        };
        let lacking: u64 = mask & !marks;
        if lacking != 0 {
            proof {
                let j = crate::symbols::some_bit(lacking);
                lemma_some_bit(lacking);
                let b = 64 * word + j;
                assert(b / 64 == word && b % 64 == j);
                assert(word_bit(masks[i as int], j));
                assert(b < i32::MAX);
                assert(indices[i as int] == b / 64);
                absent = b;
            }
            missing = true;
        }
        proof {
            if !missing {
                assert forall|n: int, j: int|
                    0 <= n < i + 1 && 0 <= j < 64 && #[trigger] word_bit(masks[n], j) implies row_bit(
                    runtime.assigned_words@,
                    64 * indices[n] + j,
                ) by {
                    if n == i {
                        assert(!word_bit(lacking, j));
                        let b = 64 * word + j;
                        assert(b / 64 == word && b % 64 == j);
                        if word >= runtime.assigned_words@.len() {
                            assert(!word_bit(0u64, j));
                        }
                    }
                }
            }
        }
        i += 1;
    }
    proof {
        if missing {
            let c = (absent + 1) as i32;
            assert(plan.conditions@.contains(c));
            let k = choose|k: int| 0 <= k < plan.conditions@.len() && plan.conditions@[k] == c;
            assert(!runtime.assigned(plan.conditions@[k]));
        } else {
            assert forall|k: int| 0 <= k < plan.conditions@.len() implies runtime.assigned(
                #[trigger] plan.conditions@[k],
            ) by {
                let c = plan.conditions@[k];
                assert(0 < c);
                let b = c - 1;
                assert(plan.conditions@.contains(c));
                assert((b + 1) as i32 == c);
                assert(masks_select(indices, masks, b));
                let n = choose|n: int|
                    0 <= n < indices.len() && #[trigger] indices[n] == b / 64 && word_bit(
                        masks[n],
                        b % 64,
                    );
                assert(word_bit(masks[n], b % 64));
                assert(64 * indices[n] + b % 64 == b);
            }
        }
    }
    !missing
}

/// A set bit of a word, where it has one.
spec fn some_bit(word: u64) -> int {
    choose|i: int| 0 <= i < 64 && #[trigger] word_bit(word, i)
}

proof fn lemma_some_bit(word: u64)
    requires
        word != 0,
    ensures
        0 <= some_bit(word) < 64,
        word_bit(word, some_bit(word)),
{
    if forall|i: int| 0 <= i < 64 ==> !#[trigger] word_bit(word, i) {
        crate::bits::lemma_word_zero(word);
    }
}

/// Checks that the plan can be evaluated.
fn check_plan_assigned<A: Copy>(
    plan: &SymbolicBoolEvaluationPlan,
    runtime: &BatchFactoredExecutorState<A>,
) -> (r: Result<()>)
    requires
        runtime.planes_wf(),
        plan.wf(),
    ensures
        match r {
            Ok(_) => plan_refusal(runtime.nsymbols as int, runtime.known(), *plan) is None && all_known(runtime.known(), plan.conditions@),
            Err(e) => plan_refusal(runtime.nsymbols as int, runtime.known(), *plan) == Some(e@),
        },
{
    proof {
        lemma_plan_refusal(runtime.nsymbols as int, runtime.known(), *plan);
    }
    if plan.conditions.len() <= BATCH_SCALAR_SYMBOLIC_EVAL_THRESHOLD {
        check_each_assigned(plan, runtime)
    } else if masks_assigned(plan, runtime) {
        Ok(())
    } else {
        Err(TicitError::new("symbolic condition expression has no concrete batch value"))
    }
}

/// XORs the live words of a plane into a row.
pub fn xor_plane<A: Copy>(
    out: &mut Vec<u64>,
    words: &Vec<u64>,
    runtime: &BatchFactoredExecutorState<A>,
    plane: usize,
    Ghost(planes): Ghost<int>,
)
    requires
        plane < planes,
        words@.len() == planes * runtime.batch_words,
        runtime.batch_words == words_for_bits(runtime.batches as int),
        runtime.active_shots <= runtime.batches,
        old(out)@.len() >= runtime.batch_words,
    ensures
        final(out)@.len() == old(out)@.len(),
        forall|i: int|
            0 <= i < runtime.active_shots ==> #[trigger] row_bit(final(out)@, i) == (row_bit(
                old(out)@,
                i,
            ) != plane_bit(words@, runtime.batch_words as int, plane as int, i)),
{
    let nwords: usize = runtime.live_word_count();
    let stride: usize = runtime.batch_words;
    let ghost st = stride as int;
    let ghost start = out@;
    let len: usize = words.len();
    let mut word: usize = 0;
    while word < nwords
        invariant
            word <= nwords,
            nwords == runtime.live_words(),
            nwords <= stride,
            stride == st,
            stride == runtime.batch_words,
            plane < planes,
            len == words@.len(),
            words@.len() == planes * st,
            out@.len() == start.len(),
            out@.len() >= stride,
            forall|w: int| word <= w < out@.len() ==> #[trigger] out@[w] == start[w],
            forall|i: int|
                0 <= i < 64 * word ==> #[trigger] row_bit(out@, i) == (row_bit(start, i) != plane_bit(
                    words@,
                    st,
                    plane as int,
                    i,
                )),
        decreases nwords - word,
    {
        proof {
            lemma_plane_index(st, planes, plane as int, word as int);
        }
        let ghost before = out@;
        let value: u64 = out[word] ^ words[plane_offset(stride, plane, word)];
        out.set(word, value);
        proof {
            assert forall|i: int| 0 <= i < 64 * (word + 1) implies #[trigger] row_bit(out@, i) == (row_bit(
                start,
                i,
            ) != plane_bit(words@, st, plane as int, i)) by {
                if i < 64 * word {
                    assert(row_bit(before, i) == (row_bit(start, i) != plane_bit(
                        words@,
                        st,
                        plane as int,
                        i,
                    )));
                } else {
                    assert(i / 64 == word);
                }
            }
        }
        word += 1;
    }
}

/// XORs the columns of the conditions into a row.
fn xor_conditions<A: Copy>(
    out: &mut Vec<u64>,
    conditions: &Vec<i32>,
    runtime: &BatchFactoredExecutorState<A>,
)
    requires
        runtime.planes_wf(),
        old(out)@.len() >= runtime.batch_words,
        forall|k: int| 0 <= k < conditions@.len() ==> runtime.has_slot(#[trigger] conditions@[k]),
    ensures
        final(out)@.len() == old(out)@.len(),
        forall|i: int|
            0 <= i < runtime.active_shots ==> #[trigger] row_bit(final(out)@, i) == (row_bit(
                old(out)@,
                i,
            ) != xor_of(conditions@, runtime.valuation(i))),
{
    let ghost start = out@;
    let ghost nsymbols = runtime.nsymbols as int;
    let mut k: usize = 0;
    while k < conditions.len()
        invariant
            k <= conditions@.len(),
            runtime.planes_wf(),
            nsymbols == runtime.nsymbols,
            out@.len() == start.len(),
            out@.len() >= runtime.batch_words,
            forall|k: int| 0 <= k < conditions@.len() ==> runtime.has_slot(#[trigger] conditions@[k]),
            forall|i: int|
                0 <= i < runtime.active_shots ==> #[trigger] row_bit(out@, i) == (row_bit(start, i)
                    != xor_of(conditions@.take(k as int), runtime.valuation(i))),
        decreases conditions@.len() - k,
    {
        let ghost before = out@;
        let condition: i32 = conditions[k];
        assert(runtime.has_slot(conditions@[k as int]));
        let plane: usize = (condition - 1) as usize;
        xor_plane(out, &runtime.value_words, runtime, plane, Ghost(nsymbols));
        proof {
            let taken = conditions@.take(k + 1);
            assert(taken =~= conditions@.take(k as int).push(condition));
            assert forall|i: int| 0 <= i < runtime.active_shots implies #[trigger] row_bit(out@, i) == (
            row_bit(start, i) != xor_of(taken, runtime.valuation(i))) by {
                lemma_xor_of_push(conditions@.take(k as int), condition, runtime.valuation(i));
                assert(row_bit(before, i) == (row_bit(start, i) != xor_of(
                    conditions@.take(k as int),
                    runtime.valuation(i),
                )));
                assert(runtime.valuation(i)(condition) == runtime.value_bit(condition, i));
            }
        }
        k += 1;
    }
    assert(conditions@.take(k as int) =~= conditions@);
}

/// Evaluates a plan for every live shot.
pub fn eval_symbolic_bool_batch<A: Copy>(
    out: &mut Vec<u64>,
    plan: &SymbolicBoolEvaluationPlan,
    runtime: &BatchFactoredExecutorState<A>,
) -> (r: Result<()>)
    requires
        runtime.planes_wf(),
        plan.wf(),
    ensures
        final(out)@.len() >= runtime.batch_words,
        match r {
            Ok(_) => {
                &&& plan_refusal(runtime.nsymbols as int, runtime.known(), *plan) is None
                &&& all_known(runtime.known(), plan.conditions@)
                &&& forall|i: int|
                    0 <= i < 64 * final(out)@.len() ==> #[trigger] row_bit(final(out)@, i) == (i
                        < runtime.active_shots && plan.value(runtime.valuation(i)))
            },
            Err(e) => plan_refusal(runtime.nsymbols as int, runtime.known(), *plan) == Some(e@),
        },
{
    fill_batch_bits(out, runtime, plan.constant);
    match check_plan_assigned(plan, runtime) {
        Ok(_) => {},
        Err(e) => {
            return Err(e);
        },
    }
    let ghost filled = out@;
    proof {
        lemma_assigned_slots(runtime, plan.conditions@);
    }
    xor_conditions(out, &plan.conditions, runtime);
    let ghost summed = out@;
    mask_batch_bits(out, runtime);
    proof {
        assert forall|i: int| 0 <= i < 64 * out@.len() implies #[trigger] row_bit(out@, i) == (i
            < runtime.active_shots && plan.value(runtime.valuation(i))) by {
            assert(row_bit(filled, i) == (plan.constant && i < runtime.active_shots));
            if i < runtime.active_shots {
                assert(row_bit(summed, i) == (row_bit(filled, i) != xor_of(
                    plan.conditions@,
                    runtime.valuation(i),
                )));
            }
        }
    }
    Ok(())
}

proof fn lemma_assigned_slots<A: Copy>(
    runtime: &BatchFactoredExecutorState<A>,
    conditions: Seq<i32>,
)
    requires
        runtime.planes_wf(),
        canonical(conditions),
        all_known(runtime.known(), conditions),
    ensures
        forall|k: int| 0 <= k < conditions.len() ==> runtime.has_slot(#[trigger] conditions[k]),
{
    assert forall|k: int| 0 <= k < conditions.len() implies runtime.has_slot(#[trigger] conditions[k]) by {
        assert(0 < conditions[k]);
        assert(runtime.assigned(conditions[k]));
    }
}

/// XORs the value of a plan into a row, for every live shot.
pub fn xor_symbolic_bool_batch_into<A: Copy>(
    out: &mut Vec<u64>,
    plan: &SymbolicBoolEvaluationPlan,
    runtime: &BatchFactoredExecutorState<A>,
) -> (r: Result<()>)
    requires
        runtime.planes_wf(),
        plan.wf(),
    ensures
        final(out)@.len() == if old(out)@.len() < runtime.batch_words {
            runtime.batch_words as int
        } else {
            old(out)@.len() as int
        },
        match r {
            Ok(_) => {
                &&& plan_refusal(runtime.nsymbols as int, runtime.known(), *plan) is None
                &&& all_known(runtime.known(), plan.conditions@)
                &&& forall|i: int|
                    0 <= i < 64 * final(out)@.len() ==> #[trigger] row_bit(final(out)@, i) == if i
                        < runtime.active_shots {
                        row_bit(old(out)@, i) != plan.value(runtime.valuation(i))
                    } else {
                        plan.conditions@.len() == 0 && !plan.constant && row_bit(old(out)@, i)
                    }
            },
            Err(e) => plan_refusal(runtime.nsymbols as int, runtime.known(), *plan) == Some(e@),
        },
{
    let ghost entry = out@;
    let words: usize = runtime.batch_words;
    if out.len() < words {
        resize_list(out, words, 0u64);
    }
    let ghost start = out@;
    proof {
        assert forall|i: int| 0 <= i < 64 * start.len() implies #[trigger] row_bit(start, i) == row_bit(
            entry,
            i,
        ) by {
            if i / 64 >= entry.len() {
                assert(start[i / 64] == 0);
            } else {
                assert(start[i / 64] == entry[i / 64]);
            }
        }
    }
    match check_plan_assigned(plan, runtime) {
        Ok(_) => {},
        Err(e) => {
            return Err(e);
        },
    }
    if plan.conditions.len() == 0 {
        if plan.constant {
            invert_batch_bits(out, runtime);
        }
        proof {
            assert forall|i: int| 0 <= i < 64 * out@.len() implies #[trigger] row_bit(out@, i) == if i
                < runtime.active_shots {
                row_bit(entry, i) != plan.value(runtime.valuation(i))
            } else {
                plan.conditions@.len() == 0 && !plan.constant && row_bit(entry, i)
            } by {
                assert(row_bit(start, i) == row_bit(entry, i));
            }
        }
        return Ok(());
    }
    proof {
        lemma_assigned_slots(runtime, plan.conditions@);
    }
    if plan.constant {
        invert_batch_bits(out, runtime);
    }
    let ghost based = out@;
    xor_conditions(out, &plan.conditions, runtime);
    let ghost summed = out@;
    mask_batch_bits(out, runtime);
    proof {
        assert forall|i: int| 0 <= i < 64 * out@.len() implies #[trigger] row_bit(out@, i) == if i
            < runtime.active_shots {
            row_bit(entry, i) != plan.value(runtime.valuation(i))
        } else {
            plan.conditions@.len() == 0 && !plan.constant && row_bit(entry, i)
        } by {
            assert(row_bit(start, i) == row_bit(entry, i));
            assert(row_bit(out@, i) == (row_bit(summed, i) && i < runtime.active_shots));
            if i < runtime.active_shots {
                assert(row_bit(summed, i) == (row_bit(based, i) != xor_of(
                    plan.conditions@,
                    runtime.valuation(i),
                )));
            }
        }
    }
    Ok(())
}

// ---------------------------------------------------------------------------
// Records and detectors
// ---------------------------------------------------------------------------
/// Adds clear planes behind the ones there are.
fn grow_planes(words: &mut Vec<u64>, stride: usize, planes: usize, wanted: usize)
    requires
        old(words)@.len() == planes * stride,
        wanted * stride <= usize::MAX,
    ensures
        final(words)@.len() == if wanted > planes {
            wanted * stride
        } else {
            planes * stride
        },
        forall|q: int, i: int|
            0 <= q < planes ==> #[trigger] plane_bit(final(words)@, stride as int, q, i) == plane_bit(
                old(words)@,
                stride as int,
                q,
                i,
            ),
        forall|q: int, i: int|
            planes <= q < wanted ==> !#[trigger] plane_bit(final(words)@, stride as int, q, i),
{
    if wanted <= planes {
        return;
    }
    let ghost start = words@;
    let ghost st = stride as int;
    assert(0 <= wanted * stride) by (nonlinear_arith);
    assert(planes * stride <= wanted * stride) by (nonlinear_arith)
        requires
            planes <= wanted,
            0 <= stride,
    ;
    resize_list(words, wanted * stride, 0u64);
    proof {
        assert forall|q: int, i: int| 0 <= q < planes implies #[trigger] plane_bit(words@, st, q, i)
            == plane_bit(start, st, q, i) by {
            if 0 <= i < 64 * st {
                lemma_plane_index(st, planes as int, q, i / 64);
                assert(words@[q * st + i / 64] == start[q * st + i / 64]);
            }
        }
        assert forall|q: int, i: int| planes <= q < wanted implies !#[trigger] plane_bit(
            words@,
            st,
            q,
            i,
        ) by {
            if 0 <= i < 64 * st {
                lemma_plane_index(st, wanted as int, q, i / 64);
                assert(planes * st <= q * st) by (nonlinear_arith)
                    requires
                        planes <= q,
                        0 <= st,
                ;
                assert(words@[q * st + i / 64] == 0);
            }
        }
    }
}

/// How many records there are once `record` is written.
pub open spec fn grown(count: int, id: i32) -> int {
    if id > count {
        id as int
    } else {
        count
    }
}

/// The record holds the row, and the other records are as before.
pub open spec fn record_written<A: Copy>(
    before: &BatchFactoredExecutorState<A>,
    after: &BatchFactoredExecutorState<A>,
    record: i32,
    bits: Seq<u64>,
) -> bool {
    &&& after.planes_wf()
    &&& after.nrecords == grown(before.nrecords as int, record)
    &&& forall|q: int, s: int|
        0 < q <= after.nrecords && 0 <= s < before.active_shots ==> #[trigger] after.record_bit(q, s)
            == if q == record {
            row_bit(bits, s)
        } else {
            q <= before.nrecords && before.record_bit(q, s)
        }
}

/// Writes the record of a measurement, where it has one. Records past the last
/// are added.
pub fn write_record<A: Copy>(
    runtime: &mut BatchFactoredExecutorState<A>,
    record: Option<i32>,
    outcome_bits: &[u64],
) -> (r: Result<()>)
    requires
        old(runtime).planes_wf(),
        outcome_bits@.len() >= old(runtime).live_words(),
        record is Some ==> record->0 * old(runtime).batch_words <= usize::MAX,
    ensures
        *final(runtime) == (BatchFactoredExecutorState {
            nrecords: final(runtime).nrecords,
            measurement_words: final(runtime).measurement_words,
            ..*old(runtime)
        }),
        match (record, r) {
            (None, Ok(_)) => *final(runtime) == *old(runtime),
            (None, Err(_)) => false,
            (Some(id), Ok(_)) => id > 0 && record_written(
                old(runtime),
                final(runtime),
                id,
                outcome_bits@,
            ),
            (Some(id), Err(e)) => id <= 0 && *final(runtime) == *old(runtime) && e@
                == "measurement record id must be positive"@,
        },
{
    let id: i32 = match record {
        None => {
            return Ok(());
        },
        Some(id) => id,
    };
    if id <= 0 {
        return Err(TicitError::new("measurement record id must be positive"));
    }
    let wanted: usize = id as usize;
    let stride: usize = runtime.batch_words;
    let planes: usize = runtime.nrecords;
    let mut words: Vec<u64> = Vec::new();
    std::mem::swap(&mut words, &mut runtime.measurement_words);
    grow_planes(&mut words, stride, planes, wanted);
    let ghost grown_words = words@;
    if wanted > planes {
        runtime.nrecords = wanted;
    }
    let ghost total = runtime.nrecords as int;
    write_plane(&mut words, runtime, wanted - 1, outcome_bits, Ghost(total));
    std::mem::swap(&mut words, &mut runtime.measurement_words);
    proof {
        let st = stride as int;
        assert forall|q: int, s: int|
            0 < q <= runtime.nrecords && 0 <= s < old(runtime).active_shots implies
            #[trigger] runtime.record_bit(q, s) == if q == id {
            row_bit(outcome_bits@, s)
        } else {
            q <= old(runtime).nrecords && old(runtime).record_bit(q, s)
        } by {
            assert(plane_bit(runtime.measurement_words@, st, q - 1, s) == if q - 1 == wanted - 1 {
                s < runtime.active_shots && row_bit(outcome_bits@, s)
            } else {
                plane_bit(grown_words, st, q - 1, s)
            });
            if q <= planes {
                assert(plane_bit(grown_words, st, q - 1, s) == plane_bit(
                    old(runtime).measurement_words@,
                    st,
                    q - 1,
                    s,
                ));
            } else {
                assert(q - 1 < wanted);
                assert(!plane_bit(grown_words, st, q - 1, s));
            }
        }
        assert(records_end(
            runtime.measurement_words@,
            st,
            runtime.nrecords as int,
            runtime.batches as int,
        )) by {
            reveal(records_end);
            assert forall|q: int, i: int|
                0 <= q < runtime.nrecords && runtime.batches <= i implies !#[trigger] plane_bit(
                runtime.measurement_words@,
                st,
                q,
                i,
            ) by {
                if i < 64 * st && q < planes {
                    assert(!plane_bit(old(runtime).measurement_words@, st, q, i));
                }
            }
        }
        assert forall|c: i32| #[trigger] runtime.assigned(c) && c > 0 implies c <= runtime.nsymbols by {
            assert(old(runtime).assigned(c));
        }
    }
    Ok(())
}

/// The detector holds the row, the other detectors are as before, and every shot
/// that fired is marked.
pub open spec fn detector_written<A: Copy>(
    before: &BatchFactoredExecutorState<A>,
    after: &BatchFactoredExecutorState<A>,
    detector: i32,
    bits: Seq<u64>,
) -> bool {
    &&& after.planes_wf()
    &&& after.ndetectors == if before.store_detector_records {
        grown(before.ndetectors as int, detector)
    } else {
        before.ndetectors as int
    }
    &&& before.store_detector_records ==> forall|q: int, s: int|
        0 < q <= after.ndetectors && 0 <= s < before.active_shots ==> #[trigger] after.detector_bit(
            q,
            s,
        ) == if q == detector {
            row_bit(bits, s)
        } else {
            q <= before.ndetectors && before.detector_bit(q, s)
        }
    &&& forall|s: int|
        0 <= s < before.active_shots ==> #[trigger] row_bit(after.detector_any_words@, s) == (row_bit(
            before.detector_any_words@,
            s,
        ) || row_bit(bits, s))
}

/// Marks the live shots of a row as fired.
fn join_fired<A: Copy>(runtime: &mut BatchFactoredExecutorState<A>, bits: &[u64])
    requires
        old(runtime).planes_wf(),
        bits@.len() >= old(runtime).live_words(),
    ensures
        *final(runtime) == (BatchFactoredExecutorState {
            detector_any_words: final(runtime).detector_any_words,
            ..*old(runtime)
        }),
        final(runtime).planes_wf(),
        forall|s: int|
            0 <= s < old(runtime).active_shots ==> #[trigger] row_bit(
                final(runtime).detector_any_words@,
                s,
            ) == (row_bit(old(runtime).detector_any_words@, s) || row_bit(bits@, s)),
{
    let nwords: usize = runtime.live_word_count();
    let ghost start = runtime.detector_any_words@;
    let mut word: usize = 0;
    while word < nwords
        invariant
            word <= nwords,
            nwords == runtime.live_words(),
            old(runtime).planes_wf(),
            start == old(runtime).detector_any_words@,
            start.len() == old(runtime).batch_words,
            bits@.len() >= nwords,
            *runtime == (BatchFactoredExecutorState {
                detector_any_words: runtime.detector_any_words,
                ..*old(runtime)
            }),
            runtime.detector_any_words@.len() == start.len(),
            forall|w: int|
                word <= w < start.len() ==> #[trigger] runtime.detector_any_words@[w] == start[w],
            forall|s: int|
                0 <= s < old(runtime).active_shots && s < 64 * word ==> #[trigger] row_bit(
                    runtime.detector_any_words@,
                    s,
                ) == (row_bit(start, s) || row_bit(bits@, s)),
        decreases nwords - word,
    {
        let ghost before = runtime.detector_any_words@;
        let mask: u64 = runtime.live_word_mask(word);
        let joined: u64 = runtime.detector_any_words[word] | (bits[word] & mask);
        runtime.detector_any_words.set(word, joined);
        proof {
            assert forall|s: int|
                0 <= s < old(runtime).active_shots && s < 64 * (word + 1) implies #[trigger] row_bit(
                runtime.detector_any_words@,
                s,
            ) == (row_bit(start, s) || row_bit(bits@, s)) by {
                if s < 64 * word {
                    assert(row_bit(before, s) == (row_bit(start, s) || row_bit(bits@, s)));
                } else {
                    assert(s / 64 == word);
                    assert(word_bit(mask, s % 64) == (64 * word + s % 64 < runtime.active_shots));
                }
            }
        }
        word += 1;
    }
    proof {
        assert forall|c: i32| #[trigger] runtime.assigned(c) && c > 0 implies c <= runtime.nsymbols by {
            assert(old(runtime).assigned(c));
        }
    }
}

/// Writes a detector. Without stored detector records only the fired marks move.
pub fn write_batch_detector_record<A: Copy>(
    runtime: &mut BatchFactoredExecutorState<A>,
    detector: i32,
    outcome_bits: &[u64],
) -> (r: Result<()>)
    requires
        old(runtime).planes_wf(),
        outcome_bits@.len() >= old(runtime).live_words(),
        detector * old(runtime).batch_words <= usize::MAX,
    ensures
        *final(runtime) == (BatchFactoredExecutorState {
            ndetectors: final(runtime).ndetectors,
            detector_words: final(runtime).detector_words,
            detector_any_words: final(runtime).detector_any_words,
            ..*old(runtime)
        }),
        match r {
            Ok(_) => detector > 0 && detector_written(
                old(runtime),
                final(runtime),
                detector,
                outcome_bits@,
            ),
            Err(e) => detector <= 0 && *final(runtime) == *old(runtime) && e@
                == "detector id must be positive"@,
        },
{
    if detector <= 0 {
        return Err(TicitError::new("detector id must be positive"));
    }
    join_fired(runtime, outcome_bits);
    if !runtime.store_detector_records {
        return Ok(());
    }
    let ghost mid = *runtime;
    let wanted: usize = detector as usize;
    let stride: usize = runtime.batch_words;
    let planes: usize = runtime.ndetectors;
    let mut words: Vec<u64> = Vec::new();
    std::mem::swap(&mut words, &mut runtime.detector_words);
    grow_planes(&mut words, stride, planes, wanted);
    let ghost grown_words = words@;
    if wanted > planes {
        runtime.ndetectors = wanted;
    }
    let ghost total = runtime.ndetectors as int;
    write_plane(&mut words, runtime, wanted - 1, outcome_bits, Ghost(total));
    std::mem::swap(&mut words, &mut runtime.detector_words);
    proof {
        let st = stride as int;
        assert forall|q: int, s: int|
            0 < q <= runtime.ndetectors && 0 <= s < mid.active_shots implies
            #[trigger] runtime.detector_bit(q, s) == if q == detector {
            row_bit(outcome_bits@, s)
        } else {
            q <= mid.ndetectors && mid.detector_bit(q, s)
        } by {
            assert(plane_bit(runtime.detector_words@, st, q - 1, s) == if q - 1 == wanted - 1 {
                s < runtime.active_shots && row_bit(outcome_bits@, s)
            } else {
                plane_bit(grown_words, st, q - 1, s)
            });
            if q <= planes {
                assert(plane_bit(grown_words, st, q - 1, s) == plane_bit(
                    mid.detector_words@,
                    st,
                    q - 1,
                    s,
                ));
            } else {
                assert(q - 1 < wanted);
                assert(!plane_bit(grown_words, st, q - 1, s));
            }
        }
        assert forall|c: i32| #[trigger] runtime.assigned(c) && c > 0 implies c <= runtime.nsymbols by {
            assert(mid.assigned(c));
        }
    }
    Ok(())
}

} // verus!
