//! Stabilizer-frame Clifford+T simulator.
//!
//! The engine tracks a Clifford frame `R` and a sparse map of amplitudes over
//! destabilizer-coset labels. Writing `D^c|ψ0⟩ = R|c⟩`, the state is
//! `|ψ⟩ = R|χ⟩` where the amplitude map is `|χ⟩` in the computational basis:
//!
//! * A Clifford gate `G` sends `R` to `G·R` and leaves the amplitude map alone.
//! * `T_P` and measurement act on `|ψ⟩` about `P`, which in the rotated frame is
//!   the same operation about `Q = R†PR`, acting on `|χ⟩`.
//!
//! For a Pauli `P`, `Q = i^k · X^a Z^b`, and on a basis term
//! `Q|c⟩ = i^k · (-1)^⟨b,c⟩ · |c ⊕ a⟩`.
//!
//! Amplitudes are opaque here. The simulator pairs every label with its coset
//! partner ([`TableauSimulator::pair_slots`]) and installs new amplitudes
//! ([`TableauSimulator::commit_pair_rewrite`]); what they are is computed by the
//! kernels that rotations and measurements take (see [`crate::evolve`]). The rank
//! is vetted before a single term is written, so a refused operation leaves the
//! state as it was.
use vstd::prelude::*;
use crate::bits::{bit_word_count, row_bit, row_bits, word_bit};
use crate::frame::{
    preimage_op, register_fits, resized_tableau, tableau_controlled, tableau_cx, tableau_cz,
    tableau_h, tableau_pauli, tableau_right_exp, tableau_right_z, tableau_root_x, tableau_root_z,
    tableau_swap, tableau_x, tableau_y, tableau_z, words_for, Frame,
};
use crate::frame_laws::{
    clifford, law_controlled_pauli, law_cx, law_cz, law_grow, law_h, law_identity_is_clifford,
    law_pauli_gates, law_pauli_string, law_preimage_of_pauli, law_right_exp,
    law_right_exp_conjugates_preimages, law_right_z, law_right_z_conjugates_preimages, law_root_x,
    law_root_z, law_swap,
};
use crate::gates::{
    axis_row, law_conjugated_cz_is_gate2, law_cx_is_gate2, law_gate1, tableau_from_z, tableau_gate1,
    tableau_gate2, tableau_to_z, Gate1Q,
};
use crate::label::{first_set_bit, same_bits, Label, LabelKey};
use crate::pauli::{
    dot_parity, measurement_phase_sign, pauli_anticommutes, tail_clear, words_dot, y_count,
    PauliBasis, PauliOp, PauliString, RowPauli,
};
use crate::sim_error::SimError;
use crate::terms::{
    count_set, find, holds, lemma_count_set_bound, lex_less, live, merge_terms, sort_terms, terms_wf,
    Term,
};

verus! {

broadcast use crate::bits::group_word_bits;

/// The bits of `1e-12`: amplitudes this small are float-drift noise, not state.
pub const DEFAULT_PRUNE_EPSILON: u64 = 0x3d71_9799_812d_ea11;

/// Live-label ceiling: fails loudly long before memory is exhausted.
pub const DEFAULT_RANK_CAP: usize = 1_048_576;

/// The simulator minus its amplitude storage.
#[derive(Clone, Debug)]
pub struct Core {
    /// Qubit count (grows on demand).
    pub n: usize,
    /// `u64` words per label.
    pub words: usize,
    /// The Clifford frame `R`.
    pub r: Frame,
    /// Position of the outcome generator.
    pub rng: u64,
    /// The bits of the pruning threshold: amplitudes at or below this modulus
    /// are dropped after each `T` and measurement projection.
    pub prune_epsilon: u64,
    /// Maximum live-label count.
    pub rank_cap: usize,
}

/// A procedural Clifford+T simulator over amplitudes of type `A`.
#[derive(Clone, Debug)]
pub struct TableauSimulator<A> {
    pub core: Core,
    /// `|χ⟩ = R†|ψ⟩` as a sparse computational-basis vector.
    pub terms: Vec<Term<A>>,
}

/// The frame decomposition of a Pauli: `Q = i^phase · X^a Z^b`, with `a` and `b`
/// as label-width word masks (the coset shift and the sign mask).
#[derive(Clone, Debug, PartialEq, Eq)]
pub struct Decomposition {
    /// X part: the coset shift `c -> c ⊕ a`.
    pub a: Label,
    /// Z part: the sign mask `(-1)^⟨b,c⟩`.
    pub b: Label,
    /// The phase exponent, reduced mod 4.
    pub phase: u8,
}

impl Decomposition {
    /// The decomposition fits a register of `n` qubits and `words` words.
    pub open spec fn wf(&self, n: int, words: int) -> bool {
        &&& self.a.0@.len() == words
        &&& self.b.0@.len() == words
        &&& 0 <= n <= 64 * words
        &&& 64 * words <= usize::MAX
        &&& tail_clear(self.a.0@, n)
        &&& tail_clear(self.b.0@, n)
        &&& self.phase < 4
    }

    /// The operator `Q` on `n` qubits.
    pub open spec fn op(&self, n: int) -> PauliOp {
        PauliOp { x: row_bits(self.a.0@, n), z: row_bits(self.b.0@, n), phase: self.phase as int }
    }

    /// The operator is diagonal in the frame.
    pub open spec fn diagonal(&self) -> bool {
        crate::label::clear_row(self.a.0@)
    }

    /// Whether the operator is diagonal in the frame (`a = 0`).
    pub fn is_diagonal(&self) -> (r: bool)
        ensures
            r == self.diagonal(),
    {
        self.a.is_zero()
    }
}

/// What a live label needs from its coset: the slot of its partner `c ⊕ a`, if
/// that is live, and the sign parity `⟨b, c⟩`.
#[derive(Clone, Copy, Debug, PartialEq, Eq, Structural)]
pub struct PairSlot {
    pub partner: Option<usize>,
    pub sign: bool,
}

/// The staged result of a coset-pair rewrite, one entry per live label in slot
/// order: its new amplitude, whether that survives pruning, and the amplitude
/// its missing partner gains, if any does.
#[derive(Clone, Debug)]
pub struct PairRewrite<A> {
    pub values: Vec<A>,
    pub keep: Vec<bool>,
    pub sent: Vec<Option<A>>,
}

/// `a ⊕ b`, word by word.
pub open spec fn xor_words(a: Seq<u64>, b: Seq<u64>) -> Seq<u64> {
    Seq::new(a.len(), |k: int| a[k] ^ b[k])
}

/// `a ⊕ b` as a label.
pub fn xor_label(a: &Label, b: &Label) -> (r: Label)
    requires
        a.0@.len() == b.0@.len(),
    ensures
        r.0@ == xor_words(a.0@, b.0@),
{
    let mut out: Vec<u64> = a.0.clone();
    assert(out@ =~= a.0@);
    crate::pauli::xor_assign(&mut out, b.0.as_slice());
    assert(out@ =~= xor_words(a.0@, b.0@));
    Label(out)
}

proof fn lemma_xor_words(a: Seq<u64>, b: Seq<u64>, m: Seq<u64>, n: int)
    requires
        a.len() == m.len(),
        b.len() == m.len(),
    ensures
        xor_words(a, m) == xor_words(b, m) ==> a == b,
        xor_words(xor_words(a, m), m) == a,
        tail_clear(a, n) && tail_clear(m, n) ==> tail_clear(xor_words(a, m), n),
{
    if xor_words(a, m) == xor_words(b, m) {
        assert forall|k: int| 0 <= k < a.len() implies a[k] == b[k] by {
            assert(xor_words(a, m)[k] == xor_words(b, m)[k]);
            let (x, y, z) = (a[k], b[k], m[k]);
            assert(x ^ z == y ^ z ==> x == y) by (bit_vector);
        }
        assert(a =~= b);
    }
    assert forall|k: int| 0 <= k < a.len() implies xor_words(xor_words(a, m), m)[k] == a[k] by {
        let (x, z) = (a[k], m[k]);
        assert((x ^ z) ^ z == x) by (bit_vector);
    }
    assert(xor_words(xor_words(a, m), m) =~= a);
    if tail_clear(a, n) && tail_clear(m, n) {
        assert forall|i: int| n <= i < 64 * xor_words(a, m).len() implies !#[trigger] row_bit(
            xor_words(a, m),
            i,
        ) by {
            assert(!row_bit(a, i) && !row_bit(m, i));
            if i >= 0 {
                assert(xor_words(a, m)[i / 64] == a[i / 64] ^ m[i / 64]);
            }
        }
    }
}

/// The terms hold the same labels, read as bits, and the same amplitudes.
pub open spec fn same_terms<A>(a: Seq<Term<A>>, b: Seq<Term<A>>) -> bool {
    &&& a.len() == b.len()
    &&& forall|i: int|
        0 <= i < a.len() ==> same_bits((#[trigger] a[i]).label.0@, b[i].label.0@) && a[i].value
            == b[i].value
}

/// The register width after making room for `need` qubits.
pub open spec fn grown_n(n: int, need: int) -> int {
    if need <= n {
        n
    } else {
        need
    }
}

/// The tableau after making room for `need` qubits.
pub open spec fn grown(t: Seq<PauliOp>, n: int, need: int) -> Seq<PauliOp> {
    if need <= n {
        t
    } else {
        resized_tableau(t, need)
    }
}

/// The larger of two qubits, plus one.
pub open spec fn need_both(a: int, b: int) -> int {
    if a < b {
        b + 1
    } else {
        a + 1
    }
}

// ---------------------------------------------------------------------------
// Pauli supports
// ---------------------------------------------------------------------------
/// Whether a string acts on qubit `q`.
pub open spec fn acts_on(p: PauliString, q: int) -> bool {
    row_bit(p.x@, q) || row_bit(p.z@, q)
}

/// One more than the largest qubit a string acts on, or 0.
pub open spec fn support_end(p: PauliString) -> int {
    support_end_below(p, p.nqubits as int)
}

/// One more than the largest qubit below `k` a string acts on, or 0.
pub open spec fn support_end_below(p: PauliString, k: int) -> int
    decreases k,
{
    if k <= 0 {
        0
    } else if acts_on(p, k - 1) {
        k
    } else {
        support_end_below(p, k - 1)
    }
}

proof fn lemma_support_end(p: PauliString, m: int, k: int)
    requires
        0 <= m <= k,
        m > 0 ==> acts_on(p, m - 1),
        forall|i: int| m <= i < k ==> !#[trigger] acts_on(p, i),
    ensures
        support_end_below(p, k) == m,
    decreases k,
{
    if k > m {
        assert(!acts_on(p, k - 1));
        lemma_support_end(p, m, k - 1);
    }
}

proof fn lemma_support_end_bound(p: PauliString, k: int)
    requires
        0 <= k,
    ensures
        0 <= support_end_below(p, k) <= k,
        forall|i: int| support_end_below(p, k) <= i < k ==> !#[trigger] acts_on(p, i),
        support_end_below(p, k) > 0 ==> acts_on(p, support_end_below(p, k) - 1),
    decreases k,
{
    if k > 0 {
        lemma_support_end_bound(p, k - 1);
    }
}

/// The largest qubit a string acts on.
pub fn max_support(pauli: &PauliString) -> (r: Option<usize>)
    requires
        pauli.wf(),
    ensures
        match r {
            Some(m) => m + 1 == support_end(*pauli),
            None => support_end(*pauli) == 0,
        },
{
    let mut k: usize = pauli.nqubits;
    while k > 0
        invariant
            k <= pauli.nqubits,
            pauli.wf(),
            forall|i: int| k <= i < pauli.nqubits ==> !#[trigger] acts_on(*pauli, i),
        decreases k,
    {
        if pauli.xbit(k - 1) || pauli.zbit(k - 1) {
            proof {
                lemma_support_end(*pauli, k as int, pauli.nqubits as int);
            }
            return Some(k - 1);
        }
        assert(!acts_on(*pauli, k - 1));
        k -= 1;
    }
    proof {
        lemma_support_end(*pauli, 0, pauli.nqubits as int);
    }
    None
}

/// The string with its qubit count changed to `nqubits`, which must cover the
/// support.
pub fn pauli_on_register(pauli: &PauliString, nqubits: usize) -> (r: Result<PauliString, SimError>)
    requires
        pauli.wf(),
        nqubits + 63 <= usize::MAX,
    ensures
        match r {
            Ok(p) => support_end(*pauli) <= nqubits && p.wf() && p.nqubits == nqubits && same_bits(
                p.x@,
                pauli.x@,
            ) && same_bits(p.z@, pauli.z@) && p.phase == pauli.phase,
            Err(e) => support_end(*pauli) > nqubits && e == (SimError::QubitIndexOutOfRange {
                index: (support_end(*pauli) - 1) as usize,
                num_qubits: nqubits,
            }),
        },
{
    if let Some(index) = max_support(pauli) {
        if index >= nqubits {
            return Err(SimError::QubitIndexOutOfRange { index, num_qubits: nqubits });
        }
    }
    let words: usize = bit_word_count(nqubits);
    proof {
        lemma_support_end_bound(*pauli, pauli.nqubits as int);
        assert forall|i: int| nqubits <= i implies !#[trigger] row_bit(pauli.x@, i) && !row_bit(
            pauli.z@,
            i,
        ) by {
            if i < pauli.nqubits {
                assert(!acts_on(*pauli, i));
            }
        }
        assert forall|i: int| nqubits <= i implies !#[trigger] row_bit(pauli.z@, i) by {
            assert(!row_bit(pauli.x@, i));
        }
    }
    let x: Vec<u64> = resized_row(&pauli.x, words, Ghost(nqubits as int));
    let z: Vec<u64> = resized_row(&pauli.z, words, Ghost(nqubits as int));
    let out = PauliString { nqubits, x, z, phase: pauli.phase };
    assert(out.wf()) by {
        assert forall|i: int| nqubits <= i < 64 * x@.len() implies !#[trigger] row_bit(x@, i) by {
            assert(row_bit(x@, i) == row_bit(pauli.x@, i));
        }
        assert forall|i: int| nqubits <= i < 64 * z@.len() implies !#[trigger] row_bit(z@, i) by {
            assert(row_bit(z@, i) == row_bit(pauli.z@, i));
        }
    }
    Ok(out)
}

/// The row in `words` words, when its bits from `n` on are clear.
fn resized_row(row: &Vec<u64>, words: usize, n: Ghost<int>) -> (r: Vec<u64>)
    requires
        n@ <= 64 * words,
        forall|i: int| n@ <= i ==> !#[trigger] row_bit(row@, i),
    ensures
        r@.len() == words,
        same_bits(r@, row@),
{
    let mut out: Vec<u64> = row.clone();
    assert(out@ =~= row@);
    out.resize(words, 0u64);
    assert forall|i: int| #[trigger] row_bit(out@, i) == row_bit(row@, i) by {
        if 0 <= i < 64 * words {
            if i / 64 < row@.len() {
                assert(out@[i / 64] == row@[i / 64]);
            } else {
                assert(out@[i / 64] == 0);
            }
        } else if i >= 64 * words {
            assert(!row_bit(row@, i));
        }
    }
    out
}

// ---------------------------------------------------------------------------
// Construction and register
// ---------------------------------------------------------------------------
impl<A: Copy> TableauSimulator<A> {
    /// The frame is a Clifford's on `n` qubits, and the terms fit it.
    pub open spec fn wf(&self) -> bool {
        &&& self.core.r.wf()
        &&& self.core.r.n == self.core.n
        &&& self.core.r.words == self.core.words
        &&& clifford(self.core.r@, self.core.n as int)
        &&& terms_wf(self.terms@, self.core.words as int, self.core.n as int)
    }

    /// Everything but the frame and the register width is the same.
    pub open spec fn same_state(&self, other: &Self) -> bool {
        &&& same_terms(self.terms@, other.terms@)
        &&& self.core.rng == other.core.rng
        &&& self.core.prune_epsilon == other.core.prune_epsilon
        &&& self.core.rank_cap == other.core.rank_cap
    }

    /// The frame after making room for `need` qubits.
    pub open spec fn grown_frame(&self, need: int) -> Seq<PauliOp> {
        grown(self.core.r@, self.core.n as int, need)
    }

    /// The simulator after a gate that needed `need` qubits and left the frame
    /// `t`: nothing else changed.
    pub open spec fn after_gate(&self, before: &Self, need: int, t: Seq<PauliOp>) -> bool {
        &&& self.wf()
        &&& self.core.n == grown_n(before.core.n as int, need)
        &&& self.core.r@ == t
        &&& self.same_state(before)
    }

    /// A fresh `|0…0⟩` simulator with a fixed seed; `one` is the amplitude of the
    /// single term.
    pub fn with_seed(num_qubits: usize, seed: u64, one: A) -> (r: Self)
        requires
            register_fits(num_qubits as int),
        ensures
            r.wf(),
            r.core.n == num_qubits,
            r.core.r@ == crate::frame::identity_tableau(num_qubits as int),
            r.core.rng == seed,
            r.core.prune_epsilon == DEFAULT_PRUNE_EPSILON,
            r.core.rank_cap == DEFAULT_RANK_CAP,
            r.terms@.len() == 1,
            crate::label::clear_row(r.terms@[0].label.0@),
            r.terms@[0].value == one,
    {
        let frame: Frame = Frame::identity(num_qubits);
        let words: usize = words_for(num_qubits);
        let label: Label = Label::zeros(words);
        let mut terms: Vec<Term<A>> = Vec::new();
        terms.push(Term { label, value: one });
        proof {
            law_identity_is_clifford(num_qubits as int);
        }
        TableauSimulator {
            core: Core {
                n: num_qubits,
                words,
                r: frame,
                rng: seed,
                prune_epsilon: DEFAULT_PRUNE_EPSILON,
                rank_cap: DEFAULT_RANK_CAP,
            },
            terms,
        }
    }

    /// Replaces the rank cap.
    pub fn set_rank_cap(&mut self, cap: usize)
        ensures
            final(self).core.rank_cap == cap,
            final(self).core.n == old(self).core.n,
            final(self).core.words == old(self).core.words,
            final(self).core.r == old(self).core.r,
            final(self).core.rng == old(self).core.rng,
            final(self).core.prune_epsilon == old(self).core.prune_epsilon,
            final(self).terms == old(self).terms,
    {
        self.core.rank_cap = cap;
    }

    /// Replaces the pruning threshold, given as the bits of a double.
    pub fn set_prune_epsilon(&mut self, epsilon: u64)
        ensures
            final(self).core.prune_epsilon == epsilon,
            final(self).core.n == old(self).core.n,
            final(self).core.words == old(self).core.words,
            final(self).core.r == old(self).core.r,
            final(self).core.rng == old(self).core.rng,
            final(self).core.rank_cap == old(self).core.rank_cap,
            final(self).terms == old(self).terms,
    {
        self.core.prune_epsilon = epsilon;
    }

    /// Moves the outcome generator, leaving the quantum state alone.
    pub fn reseed_rng(&mut self, seed: u64)
        ensures
            final(self).core.rng == seed,
            final(self).core.n == old(self).core.n,
            final(self).core.words == old(self).core.words,
            final(self).core.r == old(self).core.r,
            final(self).core.prune_epsilon == old(self).core.prune_epsilon,
            final(self).core.rank_cap == old(self).core.rank_cap,
            final(self).terms == old(self).terms,
    {
        self.core.rng = seed;
    }

    /// Adopts `snapshot`'s generator position.
    pub fn restore_rng_from(&mut self, snapshot: &Self)
        ensures
            final(self).core.rng == snapshot.core.rng,
            final(self).core.n == old(self).core.n,
            final(self).core.words == old(self).core.words,
            final(self).core.r == old(self).core.r,
            final(self).core.prune_epsilon == old(self).core.prune_epsilon,
            final(self).core.rank_cap == old(self).core.rank_cap,
            final(self).terms == old(self).terms,
    {
        self.core.rng = snapshot.core.rng;
    }

    /// Current qubit count.
    pub fn num_qubits(&self) -> (r: usize)
        ensures
            r == self.core.n,
    {
        self.core.n
    }

    /// Number of live amplitude terms (the stabilizer rank).
    pub fn rank(&self) -> (r: usize)
        ensures
            r == self.terms@.len(),
    {
        self.terms.len()
    }

    /// Ensures at least `need` qubits exist, growing `R` and widening labels.
    pub fn ensure_qubits(&mut self, need: usize)
        requires
            old(self).wf(),
            register_fits(need as int),
        ensures
            final(self).after_gate(old(self), need as int, old(self).grown_frame(need as int)),
    {
        if need <= self.core.n {
            return;
        }
        proof {
            law_grow(self.core.r@, self.core.n as int, need as int);
        }
        self.core.r.grow(need);
        let words: usize = words_for(need);
        if words > self.core.words {
            self.widen(words, Ghost(self.core.n as int), Ghost(need as int));
            self.core.words = words;
        } else {
            proof {
                assert forall|i: int| 0 <= i < self.terms@.len() implies tail_clear(
                    (#[trigger] self.terms@[i]).label.0@,
                    need as int,
                ) by {
                    assert forall|b: int| need <= b < 64 * self.terms@[i].label.0@.len() implies !#[trigger] row_bit(
                        self.terms@[i].label.0@,
                        b,
                    ) by {
                        assert(tail_clear(self.terms@[i].label.0@, old(self).core.n as int));
                    }
                }
            }
        }
        self.core.n = need;
    }

    /// Re-keys the live terms for a register that has grown to `words` words.
    fn widen(&mut self, words: usize, n: Ghost<int>, need: Ghost<int>)
        requires
            old(self).core.words < words,
            n@ <= need@,
            n@ <= 64 * old(self).core.words,
            terms_wf(old(self).terms@, old(self).core.words as int, n@),
        ensures
            final(self).core == old(self).core,
            terms_wf(final(self).terms@, words as int, need@),
            same_terms(final(self).terms@, old(self).terms@),
    {
        let ghost narrow = self.core.words as int;
        let ghost terms0 = self.terms@;
        let ghost n0 = n@;
        let ghost n1 = need@;
        let mut out: Vec<Term<A>> = Vec::new();
        let mut i: usize = 0;
        while i < self.terms.len()
            invariant
                i <= self.terms@.len(),
                self.core == old(self).core,
                self.terms@ == terms0,
                narrow < words,
                n0 <= n1,
                n0 <= 64 * narrow,
                terms_wf(terms0, narrow, n0),
                out@.len() == i,
                forall|k: int|
                    0 <= k < i ==> same_bits((#[trigger] out@[k]).label.0@, terms0[k].label.0@)
                        && out@[k].value == terms0[k].value && out@[k].label.0@.len() == words,
                terms_wf(out@, words as int, n1),
            decreases self.terms@.len() - i,
        {
            let label: Label = Label::from_words(self.terms[i].label.0.as_slice(), words);
            let value: A = self.terms[i].value;
            let ghost before = out@;
            out.push(Term { label, value });
            proof {
                let last = i as int;
                assert(tail_clear(terms0[last].label.0@, n0));
                assert forall|b: int| n1 <= b < 64 * words implies !#[trigger] row_bit(label.0@, b) by {
                    assert(row_bit(label.0@, b) == row_bit(terms0[last].label.0@, b));
                }
                assert forall|j: int| 0 <= j < last implies lex_less(
                    (#[trigger] out@[j]).label.0@,
                    out@[last].label.0@,
                ) by {
                    assert(out@[j] == before[j]);
                    assert(lex_less(terms0[j].label.0@, terms0[last].label.0@));
                    lemma_widened_order(
                        terms0[j].label.0@,
                        terms0[last].label.0@,
                        out@[j].label.0@,
                        out@[last].label.0@,
                    );
                }
            }
            i += 1;
        }
        self.terms = out;
    }

    /// Ensures the register covers a string's support.
    pub fn ensure_for(&mut self, pauli: &PauliString)
        requires
            old(self).wf(),
            pauli.wf(),
            register_fits(pauli.nqubits as int),
        ensures
            final(self).after_gate(
                old(self),
                support_end(*pauli),
                old(self).grown_frame(support_end(*pauli)),
            ),
    {
        proof {
            lemma_support_end_bound(*pauli, pauli.nqubits as int);
        }
        if let Some(max) = max_support(pauli) {
            self.ensure_qubits(max + 1);
        }
    }
}

/// Appending clear words keeps the order of labels.
proof fn lemma_widened_order(a: Seq<u64>, b: Seq<u64>, c: Seq<u64>, d: Seq<u64>)
    requires
        a.len() == b.len(),
        c.len() == d.len(),
        a.len() <= c.len(),
        same_bits(c, a),
        same_bits(d, b),
        lex_less(a, b),
    ensures
        lex_less(c, d),
{
    let k = choose|k: int|
        0 <= k < a.len() && #[trigger] a[k] < b[k] && forall|j: int| 0 <= j < k ==> a[j] == b[j];
    assert forall|j: int| 0 <= j < a.len() implies c[j] == a[j] && d[j] == b[j] by {
        lemma_same_word(c, a, j);
        lemma_same_word(d, b, j);
    }
    assert(c[k] < d[k]);
}

proof fn lemma_same_word(a: Seq<u64>, b: Seq<u64>, k: int)
    requires
        same_bits(a, b),
        0 <= k < a.len(),
        k < b.len(),
    ensures
        a[k] == b[k],
{
    assert forall|i: int| 0 <= i < 64 implies #[trigger] word_bit(a[k], i) == word_bit(b[k], i) by {
        let p = 64 * k + i;
        assert(p / 64 == k && p % 64 == i);
        assert(row_bit(a, p) == row_bit(b, p));
    }
    crate::bits::lemma_word_ext(a[k], b[k]);
}

// ---------------------------------------------------------------------------
// Clifford gates: they change R only
// ---------------------------------------------------------------------------
impl<A: Copy> TableauSimulator<A> {
    /// Hadamard.
    pub fn h(&mut self, q: usize)
        requires
            old(self).wf(),
            register_fits(q + 1),
        ensures
            final(self).after_gate(
                old(self),
                q + 1,
                tableau_h(old(self).grown_frame(q + 1), q as int),
            ),
    {
        self.ensure_qubits(q + 1);
        proof {
            law_h(self.core.r@, self.core.n as int, q as int);
        }
        self.core.r.left_h(q);
    }

    /// Phase gate `S = √Z`.
    pub fn s(&mut self, q: usize)
        requires
            old(self).wf(),
            register_fits(q + 1),
        ensures
            final(self).after_gate(
                old(self),
                q + 1,
                tableau_root_z(old(self).grown_frame(q + 1), q as int, 1),
            ),
    {
        self.ensure_qubits(q + 1);
        proof {
            law_root_z(self.core.r@, self.core.n as int, q as int, 1);
        }
        self.core.r.left_s(q);
    }

    /// `S† = √Z†`.
    pub fn s_dag(&mut self, q: usize)
        requires
            old(self).wf(),
            register_fits(q + 1),
        ensures
            final(self).after_gate(
                old(self),
                q + 1,
                tableau_root_z(old(self).grown_frame(q + 1), q as int, 3),
            ),
    {
        self.ensure_qubits(q + 1);
        proof {
            law_root_z(self.core.r@, self.core.n as int, q as int, 3);
        }
        self.core.r.left_s_dag(q);
    }

    /// Pauli `X`.
    pub fn x(&mut self, q: usize)
        requires
            old(self).wf(),
            register_fits(q + 1),
        ensures
            final(self).after_gate(
                old(self),
                q + 1,
                tableau_x(old(self).grown_frame(q + 1), q as int),
            ),
    {
        self.ensure_qubits(q + 1);
        proof {
            law_pauli_gates(self.core.r@, self.core.n as int, q as int);
        }
        self.core.r.left_x(q);
    }

    /// Pauli `Y`.
    pub fn y(&mut self, q: usize)
        requires
            old(self).wf(),
            register_fits(q + 1),
        ensures
            final(self).after_gate(
                old(self),
                q + 1,
                tableau_y(old(self).grown_frame(q + 1), q as int),
            ),
    {
        self.ensure_qubits(q + 1);
        proof {
            law_pauli_gates(self.core.r@, self.core.n as int, q as int);
        }
        self.core.r.left_y(q);
    }

    /// Pauli `Z`.
    pub fn z(&mut self, q: usize)
        requires
            old(self).wf(),
            register_fits(q + 1),
        ensures
            final(self).after_gate(
                old(self),
                q + 1,
                tableau_z(old(self).grown_frame(q + 1), q as int),
            ),
    {
        self.ensure_qubits(q + 1);
        proof {
            law_pauli_gates(self.core.r@, self.core.n as int, q as int);
        }
        self.core.r.left_z(q);
    }

    /// `√X`.
    pub fn sqrt_x(&mut self, q: usize)
        requires
            old(self).wf(),
            register_fits(q + 1),
        ensures
            final(self).after_gate(
                old(self),
                q + 1,
                tableau_root_x(old(self).grown_frame(q + 1), q as int, 1),
            ),
    {
        self.ensure_qubits(q + 1);
        proof {
            law_root_x(self.core.r@, self.core.n as int, q as int, 1);
        }
        self.core.r.left_sqrt_x(q);
    }

    /// `√X†`.
    pub fn sqrt_x_dag(&mut self, q: usize)
        requires
            old(self).wf(),
            register_fits(q + 1),
        ensures
            final(self).after_gate(
                old(self),
                q + 1,
                tableau_root_x(old(self).grown_frame(q + 1), q as int, 3),
            ),
    {
        self.ensure_qubits(q + 1);
        proof {
            law_root_x(self.core.r@, self.core.n as int, q as int, 3);
        }
        self.core.r.left_sqrt_x_dag(q);
    }

    /// `√Y`.
    pub fn sqrt_y(&mut self, q: usize)
        requires
            old(self).wf(),
            register_fits(q + 1),
        ensures
            final(self).after_gate(
                old(self),
                q + 1,
                tableau_gate1(old(self).grown_frame(q + 1), Gate1Q::SqrtY, q as int),
            ),
    {
        self.ensure_qubits(q + 1);
        proof {
            law_gate1(self.core.r@, self.core.n as int, Gate1Q::SqrtY, q as int);
        }
        self.core.r.left_sqrt_y(q);
    }

    /// `√Y†`.
    pub fn sqrt_y_dag(&mut self, q: usize)
        requires
            old(self).wf(),
            register_fits(q + 1),
        ensures
            final(self).after_gate(
                old(self),
                q + 1,
                tableau_gate1(old(self).grown_frame(q + 1), Gate1Q::SqrtYDag, q as int),
            ),
    {
        self.ensure_qubits(q + 1);
        proof {
            law_gate1(self.core.r@, self.core.n as int, Gate1Q::SqrtYDag, q as int);
        }
        self.core.r.left_sqrt_y_dag(q);
    }

    /// CNOT with `control`, `target`.
    pub fn cx(&mut self, control: usize, target: usize) -> (r: Result<(), SimError>)
        requires
            old(self).wf(),
            register_fits(need_both(control as int, target as int)),
        ensures
            match r {
                Err(e) => control == target && e == SimError::RepeatedQubit(control) && *final(self) == *old(self),
                Ok(_) => control != target && final(self).after_gate(
                    old(self),
                    need_both(control as int, target as int),
                    tableau_cx(
                        old(self).grown_frame(need_both(control as int, target as int)),
                        control as int,
                        target as int,
                    ),
                ),
            },
    {
        if control == target {
            return Err(SimError::RepeatedQubit(control));
        }
        let need: usize = if control < target {
            target + 1
        } else {
            control + 1
        };
        self.ensure_qubits(need);
        proof {
            law_cx(self.core.r@, self.core.n as int, control as int, target as int);
        }
        self.core.r.left_cx(control, target);
        Ok(())
    }

    /// Controlled-Z (symmetric).
    pub fn cz(&mut self, a: usize, b: usize) -> (r: Result<(), SimError>)
        requires
            old(self).wf(),
            register_fits(need_both(a as int, b as int)),
        ensures
            match r {
                Err(e) => a == b && e == SimError::RepeatedQubit(a) && *final(self) == *old(self),
                Ok(_) => a != b && final(self).after_gate(
                    old(self),
                    need_both(a as int, b as int),
                    tableau_cz(
                        old(self).grown_frame(need_both(a as int, b as int)),
                        a as int,
                        b as int,
                    ),
                ),
            },
    {
        if a == b {
            return Err(SimError::RepeatedQubit(a));
        }
        let need: usize = if a < b {
            b + 1
        } else {
            a + 1
        };
        self.ensure_qubits(need);
        proof {
            law_cz(self.core.r@, self.core.n as int, a as int, b as int);
        }
        self.core.r.left_cz(a, b);
        Ok(())
    }

    /// Swap.
    pub fn swap(&mut self, a: usize, b: usize)
        requires
            old(self).wf(),
            register_fits(need_both(a as int, b as int)),
        ensures
            final(self).after_gate(
                old(self),
                need_both(a as int, b as int),
                tableau_swap(
                    old(self).grown_frame(need_both(a as int, b as int)),
                    a as int,
                    b as int,
                ),
            ),
    {
        let need: usize = if a < b {
            b + 1
        } else {
            a + 1
        };
        self.ensure_qubits(need);
        proof {
            law_swap(self.core.r@, self.core.n as int, a as int, b as int);
        }
        self.core.r.left_swap(a, b);
    }

    /// `ISWAP`: swap `a` and `b`, with an `i` on the two odd-parity terms.
    pub fn iswap(&mut self, a: usize, b: usize) -> (r: Result<(), SimError>)
        requires
            old(self).wf(),
            register_fits(need_both(a as int, b as int)),
        ensures
            match r {
                Err(e) => a == b && e == SimError::RepeatedQubit(a) && *final(self) == *old(self),
                Ok(_) => a != b && final(self).after_gate(
                    old(self),
                    need_both(a as int, b as int),
                    tableau_iswap(
                        old(self).grown_frame(need_both(a as int, b as int)),
                        a as int,
                        b as int,
                        1,
                    ),
                ),
            },
    {
        match self.cz(a, b) {
            Ok(_) => {},
            Err(e) => {
                return Err(e);
            },
        }
        let ghost before = *self;
        self.s(a);
        self.s(b);
        self.swap(a, b);
        proof {
            lemma_same_terms_chain(self.terms@, before.terms@, old(self).terms@);
        }
        Ok(())
    }

    /// `ISWAP†`.
    pub fn iswap_dag(&mut self, a: usize, b: usize) -> (r: Result<(), SimError>)
        requires
            old(self).wf(),
            register_fits(need_both(a as int, b as int)),
        ensures
            match r {
                Err(e) => a == b && e == SimError::RepeatedQubit(a) && *final(self) == *old(self),
                Ok(_) => a != b && final(self).after_gate(
                    old(self),
                    need_both(a as int, b as int),
                    tableau_iswap(
                        old(self).grown_frame(need_both(a as int, b as int)),
                        a as int,
                        b as int,
                        3,
                    ),
                ),
            },
    {
        match self.cz(a, b) {
            Ok(_) => {},
            Err(e) => {
                return Err(e);
            },
        }
        let ghost before = *self;
        self.s_dag(a);
        self.s_dag(b);
        self.swap(a, b);
        proof {
            lemma_same_terms_chain(self.terms@, before.terms@, old(self).terms@);
        }
        Ok(())
    }

    /// Applies a named single-qubit Clifford, one or two primitive frame updates.
    pub fn gate1(&mut self, gate: Gate1Q, qubit: usize)
        requires
            old(self).wf(),
            register_fits(qubit + 1),
        ensures
            final(self).after_gate(
                old(self),
                qubit + 1,
                tableau_gate1(old(self).grown_frame(qubit + 1), gate, qubit as int),
            ),
    {
        match gate {
            Gate1Q::X => {
                self.x(qubit);
            },
            Gate1Q::Y => {
                self.y(qubit);
            },
            Gate1Q::Z => {
                self.z(qubit);
            },
            Gate1Q::H => {
                self.h(qubit);
            },
            Gate1Q::S => {
                self.s(qubit);
            },
            Gate1Q::SDag => {
                self.s_dag(qubit);
            },
            Gate1Q::SqrtX => {
                self.sqrt_x(qubit);
            },
            Gate1Q::SqrtXDag => {
                self.sqrt_x_dag(qubit);
            },
            Gate1Q::SqrtY => {
                self.sqrt_y(qubit);
            },
            Gate1Q::SqrtYDag => {
                self.sqrt_y_dag(qubit);
            },
            Gate1Q::Hxy => {
                self.s_dag(qubit);
                self.x(qubit);
            },
            Gate1Q::Hyz => {
                self.sqrt_x(qubit);
                self.z(qubit);
            },
            Gate1Q::Hnxy => {
                self.s(qubit);
                self.x(qubit);
            },
            Gate1Q::Hnxz => {
                self.h(qubit);
                self.y(qubit);
            },
            Gate1Q::Hnyz => {
                self.sqrt_x(qubit);
                self.y(qubit);
            },
            Gate1Q::Cxyz => {
                self.sqrt_x(qubit);
                self.s(qubit);
            },
            Gate1Q::Cnxyz => {
                self.sqrt_x(qubit);
                self.s_dag(qubit);
            },
            Gate1Q::Cxnyz => {
                self.sqrt_x_dag(qubit);
                self.s_dag(qubit);
            },
            Gate1Q::Cxynz => {
                self.sqrt_x_dag(qubit);
                self.s(qubit);
            },
            Gate1Q::Czyx => {
                self.s_dag(qubit);
                self.sqrt_x_dag(qubit);
            },
            Gate1Q::Cnzyx => {
                self.s_dag(qubit);
                self.sqrt_x(qubit);
            },
            Gate1Q::Cznyx => {
                self.s(qubit);
                self.sqrt_x(qubit);
            },
            Gate1Q::Czynx => {
                self.s(qubit);
                self.sqrt_x_dag(qubit);
            },
        }
    }

    /// `C_XYZ`: the order-three Pauli cycle `X -> Y -> Z -> X`.
    pub fn c_xyz(&mut self, q: usize)
        requires
            old(self).wf(),
            register_fits(q + 1),
        ensures
            final(self).after_gate(
                old(self),
                q + 1,
                tableau_gate1(old(self).grown_frame(q + 1), Gate1Q::Cxyz, q as int),
            ),
    {
        self.gate1(Gate1Q::Cxyz, q);
    }

    /// `C_ZYX`: the inverse cycle `X -> Z -> Y -> X`.
    pub fn c_zyx(&mut self, q: usize)
        requires
            old(self).wf(),
            register_fits(q + 1),
        ensures
            final(self).after_gate(
                old(self),
                q + 1,
                tableau_gate1(old(self).grown_frame(q + 1), Gate1Q::Czyx, q as int),
            ),
    {
        self.gate1(Gate1Q::Czyx, q);
    }

    /// `H_XY`: the Hadamard-like exchange of `X` and `Y`.
    pub fn h_xy(&mut self, q: usize)
        requires
            old(self).wf(),
            register_fits(q + 1),
        ensures
            final(self).after_gate(
                old(self),
                q + 1,
                tableau_gate1(old(self).grown_frame(q + 1), Gate1Q::Hxy, q as int),
            ),
    {
        self.gate1(Gate1Q::Hxy, q);
    }

    /// `H_YZ`: the Hadamard-like exchange of `Y` and `Z`.
    pub fn h_yz(&mut self, q: usize)
        requires
            old(self).wf(),
            register_fits(q + 1),
        ensures
            final(self).after_gate(
                old(self),
                q + 1,
                tableau_gate1(old(self).grown_frame(q + 1), Gate1Q::Hyz, q as int),
            ),
    {
        self.gate1(Gate1Q::Hyz, q);
    }

    /// Conjugates `qubit` so that `basis` becomes `Z`.
    pub fn basis_to_z(&mut self, basis: PauliBasis, qubit: usize)
        requires
            old(self).wf(),
            qubit < old(self).core.n,
        ensures
            final(self).after_gate(
                old(self),
                qubit + 1,
                tableau_to_z(old(self).core.r@, basis, qubit as int),
            ),
    {
        match basis {
            PauliBasis::X => self.h(qubit),
            PauliBasis::Y => self.sqrt_x(qubit),
            PauliBasis::Z => {},
        }
    }

    /// Undoes [`basis_to_z`](Self::basis_to_z).
    pub fn z_to_basis(&mut self, basis: PauliBasis, qubit: usize)
        requires
            old(self).wf(),
            qubit < old(self).core.n,
        ensures
            final(self).after_gate(
                old(self),
                qubit + 1,
                tableau_from_z(old(self).core.r@, basis, qubit as int),
            ),
    {
        match basis {
            PauliBasis::X => self.h(qubit),
            PauliBasis::Y => self.sqrt_x_dag(qubit),
            PauliBasis::Z => {},
        }
    }

    /// The single-qubit Pauli of an axis.
    pub fn basis_pauli(&mut self, basis: PauliBasis, qubit: usize)
        requires
            old(self).wf(),
            register_fits(qubit + 1),
        ensures
            final(self).after_gate(
                old(self),
                qubit + 1,
                tableau_basis_pauli(old(self).grown_frame(qubit + 1), basis, qubit as int),
            ),
    {
        match basis {
            PauliBasis::X => self.x(qubit),
            PauliBasis::Y => self.y(qubit),
            PauliBasis::Z => self.z(qubit),
        }
    }

    /// Applies the two-qubit gate `<A>C<B>`: `target` acts on `target_qubit`
    /// exactly when `control_qubit` sits in the `-1` eigenstate of `control`.
    pub fn gate2(
        &mut self,
        control: PauliBasis,
        target: PauliBasis,
        control_qubit: usize,
        target_qubit: usize,
    ) -> (r: Result<(), SimError>)
        requires
            old(self).wf(),
            register_fits(need_both(control_qubit as int, target_qubit as int)),
        ensures
            gate2_result(
                old(self),
                final(self),
                r,
                control,
                target,
                control_qubit,
                target_qubit,
            ),
    {
        if control_qubit == target_qubit {
            return Err(SimError::RepeatedQubit(control_qubit));
        }
        let ghost need = need_both(control_qubit as int, target_qubit as int);
        let ghost t = self.grown_frame(need);
        let ghost n = grown_n(self.core.n as int, need);
        proof {
            if need > self.core.n {
                law_grow(self.core.r@, self.core.n as int, need);
            }
            law_cx_is_gate2(t, n, control_qubit as int, target_qubit as int);
            law_cx_is_gate2(t, n, target_qubit as int, control_qubit as int);
        }
        if control == PauliBasis::Z && target == PauliBasis::Z {
            return self.cz(control_qubit, target_qubit);
        }
        if control == PauliBasis::Z && target == PauliBasis::X {
            return self.cx(control_qubit, target_qubit);
        }
        if control == PauliBasis::X && target == PauliBasis::Z {
            return self.cx(target_qubit, control_qubit);
        }
        let room: usize = if control_qubit < target_qubit {
            target_qubit + 1
        } else {
            control_qubit + 1
        };
        self.ensure_qubits(room);
        let ghost s0 = *self;
        self.basis_to_z(control, control_qubit);
        let ghost s1 = *self;
        self.basis_to_z(target, target_qubit);
        let ghost s2 = *self;
        let applied: Result<(), SimError> = self.cz(control_qubit, target_qubit);
        let ghost s3 = *self;
        self.z_to_basis(target, target_qubit);
        let ghost s4 = *self;
        self.z_to_basis(control, control_qubit);
        proof {
            law_conjugated_cz_is_gate2(
                t,
                n,
                control,
                target,
                control_qubit as int,
                target_qubit as int,
            );
            lemma_same_terms_chain(s1.terms@, s0.terms@, old(self).terms@);
            lemma_same_terms_chain(s2.terms@, s1.terms@, old(self).terms@);
            lemma_same_terms_chain(s3.terms@, s2.terms@, old(self).terms@);
            lemma_same_terms_chain(s4.terms@, s3.terms@, old(self).terms@);
            lemma_same_terms_chain(self.terms@, s4.terms@, old(self).terms@);
        }
        applied
    }

    /// CNOT.
    pub fn cnot(&mut self, control: usize, target: usize) -> (r: Result<(), SimError>)
        requires
            old(self).wf(),
            register_fits(need_both(control as int, target as int)),
        ensures
            gate2_result(
                old(self),
                final(self),
                r,
                PauliBasis::Z,
                PauliBasis::X,
                control,
                target,
            ),
    {
        self.gate2(PauliBasis::Z, PauliBasis::X, control, target)
    }

    /// Controlled-`Y`.
    pub fn cy(&mut self, control: usize, target: usize) -> (r: Result<(), SimError>)
        requires
            old(self).wf(),
            register_fits(need_both(control as int, target as int)),
        ensures
            gate2_result(
                old(self),
                final(self),
                r,
                PauliBasis::Z,
                PauliBasis::Y,
                control,
                target,
            ),
    {
        self.gate2(PauliBasis::Z, PauliBasis::Y, control, target)
    }

    /// `XCX`: apply `X` to `target` when `control` is in the `-1` eigenstate of `X`.
    pub fn xcx(&mut self, control: usize, target: usize) -> (r: Result<(), SimError>)
        requires
            old(self).wf(),
            register_fits(need_both(control as int, target as int)),
        ensures
            gate2_result(
                old(self),
                final(self),
                r,
                PauliBasis::X,
                PauliBasis::X,
                control,
                target,
            ),
    {
        self.gate2(PauliBasis::X, PauliBasis::X, control, target)
    }

    /// `XCY`.
    pub fn xcy(&mut self, control: usize, target: usize) -> (r: Result<(), SimError>)
        requires
            old(self).wf(),
            register_fits(need_both(control as int, target as int)),
        ensures
            gate2_result(
                old(self),
                final(self),
                r,
                PauliBasis::X,
                PauliBasis::Y,
                control,
                target,
            ),
    {
        self.gate2(PauliBasis::X, PauliBasis::Y, control, target)
    }

    /// `XCZ`.
    pub fn xcz(&mut self, control: usize, target: usize) -> (r: Result<(), SimError>)
        requires
            old(self).wf(),
            register_fits(need_both(control as int, target as int)),
        ensures
            gate2_result(
                old(self),
                final(self),
                r,
                PauliBasis::X,
                PauliBasis::Z,
                control,
                target,
            ),
    {
        self.gate2(PauliBasis::X, PauliBasis::Z, control, target)
    }

    /// `YCX`.
    pub fn ycx(&mut self, control: usize, target: usize) -> (r: Result<(), SimError>)
        requires
            old(self).wf(),
            register_fits(need_both(control as int, target as int)),
        ensures
            gate2_result(
                old(self),
                final(self),
                r,
                PauliBasis::Y,
                PauliBasis::X,
                control,
                target,
            ),
    {
        self.gate2(PauliBasis::Y, PauliBasis::X, control, target)
    }

    /// `YCY`.
    pub fn ycy(&mut self, control: usize, target: usize) -> (r: Result<(), SimError>)
        requires
            old(self).wf(),
            register_fits(need_both(control as int, target as int)),
        ensures
            gate2_result(
                old(self),
                final(self),
                r,
                PauliBasis::Y,
                PauliBasis::Y,
                control,
                target,
            ),
    {
        self.gate2(PauliBasis::Y, PauliBasis::Y, control, target)
    }

    /// `YCZ`.
    pub fn ycz(&mut self, control: usize, target: usize) -> (r: Result<(), SimError>)
        requires
            old(self).wf(),
            register_fits(need_both(control as int, target as int)),
        ensures
            gate2_result(
                old(self),
                final(self),
                r,
                PauliBasis::Y,
                PauliBasis::Z,
                control,
                target,
            ),
    {
        self.gate2(PauliBasis::Y, PauliBasis::Z, control, target)
    }

    /// `ZCX`, the CNOT.
    pub fn zcx(&mut self, control: usize, target: usize) -> (r: Result<(), SimError>)
        requires
            old(self).wf(),
            register_fits(need_both(control as int, target as int)),
        ensures
            gate2_result(
                old(self),
                final(self),
                r,
                PauliBasis::Z,
                PauliBasis::X,
                control,
                target,
            ),
    {
        self.gate2(PauliBasis::Z, PauliBasis::X, control, target)
    }

    /// `ZCY`.
    pub fn zcy(&mut self, control: usize, target: usize) -> (r: Result<(), SimError>)
        requires
            old(self).wf(),
            register_fits(need_both(control as int, target as int)),
        ensures
            gate2_result(
                old(self),
                final(self),
                r,
                PauliBasis::Z,
                PauliBasis::Y,
                control,
                target,
            ),
    {
        self.gate2(PauliBasis::Z, PauliBasis::Y, control, target)
    }

    /// `ZCZ`.
    pub fn zcz(&mut self, control: usize, target: usize) -> (r: Result<(), SimError>)
        requires
            old(self).wf(),
            register_fits(need_both(control as int, target as int)),
        ensures
            gate2_result(
                old(self),
                final(self),
                r,
                PauliBasis::Z,
                PauliBasis::Z,
                control,
                target,
            ),
    {
        self.gate2(PauliBasis::Z, PauliBasis::Z, control, target)
    }

    /// Applies a Pauli `P` to the state (`R -> P·R`).
    pub fn pauli(&mut self, p: &PauliString)
        requires
            old(self).wf(),
            p.wf(),
            register_fits(p.nqubits as int),
        ensures
            final(self).after_gate(
                old(self),
                support_end(*p),
                tableau_pauli(
                    old(self).grown_frame(support_end(*p)),
                    p.op_on(final(self).core.n as int).x,
                    p.op_on(final(self).core.n as int).z,
                ),
            ),
    {
        self.ensure_for(p);
        proof {
            let n = self.core.n as int;
            law_pauli_string(self.core.r@, n, p.op_on(n).x, p.op_on(n).z);
            lemma_support_tail(*p, n);
        }
        self.core.r.left_pauli(p);
    }

    /// Applies `control`-conditioned `target` (both Paulis).
    pub fn controlled_pauli(&mut self, control: &PauliString, target: &PauliString) -> (r: Result<
        (),
        SimError,
    >)
        requires
            old(self).wf(),
            control.wf(),
            target.wf(),
            register_fits(control.nqubits as int),
            register_fits(target.nqubits as int),
        ensures
            ({
                let need = controlled_need(*control, *target);
                let n = grown_n(old(self).core.n as int, need);
                let c = control.op_on(n);
                let t = target.op_on(n);
                match r {
                    Err(e) => *final(self) == *old(self) && if c.anticommutes(t) {
                        e == SimError::NonCommutingControlledPaulis
                    } else {
                        e == SimError::InvalidControlledPauli && !(positive_hermitian(*control)
                            && positive_hermitian(*target))
                    },
                    Ok(_) => !c.anticommutes(t) && positive_hermitian(*control) && positive_hermitian(
                        *target,
                    ) && final(self).after_gate(
                        old(self),
                        need,
                        tableau_controlled(old(self).grown_frame(need), c.x, c.z, t.x, t.z, n),
                    ),
                }
            }),
    {
        proof {
            lemma_support_end_bound(*control, control.nqubits as int);
            lemma_support_end_bound(*target, target.nqubits as int);
        }
        let first: usize = match max_support(control) {
            Some(m) => m + 1,
            None => 0,
        };
        let second: usize = match max_support(target) {
            Some(m) => m + 1,
            None => 0,
        };
        let mut nqubits: usize = self.core.n;
        if first > nqubits {
            nqubits = first;
        }
        if second > nqubits {
            nqubits = second;
        }
        let ghost n = nqubits as int;
        let wide_control: PauliString = match pauli_on_register(control, nqubits) {
            Ok(p) => p,
            Err(e) => {
                return Err(e);
            },
        };
        let wide_target: PauliString = match pauli_on_register(target, nqubits) {
            Ok(p) => p,
            Err(e) => {
                return Err(e);
            },
        };
        proof {
            lemma_same_op(wide_control, *control, n);
            lemma_same_op(wide_target, *target, n);
        }
        if pauli_anticommutes(&wide_control, &wide_target) {
            return Err(SimError::NonCommutingControlledPaulis);
        }
        let control_sign: Option<bool> = measurement_phase_sign(&wide_control);
        let target_sign: Option<bool> = measurement_phase_sign(&wide_target);
        proof {
            lemma_sign_on_register(wide_control, *control);
            lemma_sign_on_register(wide_target, *target);
        }
        let positive: bool = match (control_sign, target_sign) {
            (Some(c), Some(t)) => !c && !t,
            _ => false,
        };
        if !positive {
            return Err(SimError::InvalidControlledPauli);
        }
        self.ensure_qubits(nqubits);
        proof {
            law_controlled_pauli(self.core.r@, wide_control.op_on(n), wide_target.op_on(n), n);
        }
        self.core.r.left_controlled_pauli(&wide_control, &wide_target);
        Ok(())
    }
}

/// The tableau of a single-qubit Pauli.
pub open spec fn tableau_basis_pauli(t: Seq<PauliOp>, basis: PauliBasis, q: int) -> Seq<PauliOp> {
    match basis {
        PauliBasis::X => tableau_x(t, q),
        PauliBasis::Y => tableau_y(t, q),
        PauliBasis::Z => tableau_z(t, q),
    }
}

/// `SWAP·(S⊗S)·CZ`, with `S†` for `delta = 3`.
pub open spec fn tableau_iswap(t: Seq<PauliOp>, a: int, b: int, delta: int) -> Seq<PauliOp> {
    tableau_swap(
        tableau_root_z(tableau_root_z(tableau_cz(t, a, b), a, delta), b, delta),
        a,
        b,
    )
}

/// The register a controlled Pauli needs.
pub open spec fn controlled_need(control: PauliString, target: PauliString) -> int {
    if support_end(control) < support_end(target) {
        support_end(target)
    } else {
        support_end(control)
    }
}

/// A Hermitian string with a positive sign.
pub open spec fn positive_hermitian(p: PauliString) -> bool {
    (p.phase - p.y_sites()) % 4 == 0
}

/// What a two-qubit gate about two axes does: it refuses a repeated qubit and
/// leaves the state alone, and otherwise changes the frame only.
pub open spec fn gate2_result<A: Copy>(
    before: &TableauSimulator<A>,
    after: &TableauSimulator<A>,
    r: Result<(), SimError>,
    control: PauliBasis,
    target: PauliBasis,
    c: usize,
    k: usize,
) -> bool {
    match r {
        Err(e) => c == k && e == SimError::RepeatedQubit(c) && *after == *before,
        Ok(_) => c != k && after.after_gate(
            before,
            need_both(c as int, k as int),
            tableau_gate2(
                before.grown_frame(need_both(c as int, k as int)),
                control,
                target,
                c as int,
                k as int,
            ),
        ),
    }
}

pub proof fn lemma_same_terms_chain<A>(a: Seq<Term<A>>, b: Seq<Term<A>>, c: Seq<Term<A>>)
    requires
        same_terms(a, b),
        same_terms(b, c),
    ensures
        same_terms(a, c),
{
    assert forall|i: int| 0 <= i < a.len() implies same_bits(
        (#[trigger] a[i]).label.0@,
        c[i].label.0@,
    ) && a[i].value == c[i].value by {
        assert(same_bits(b[i].label.0@, c[i].label.0@));
        assert forall|j: int| #[trigger] row_bit(a[i].label.0@, j) == row_bit(c[i].label.0@, j) by {
            assert(row_bit(a[i].label.0@, j) == row_bit(b[i].label.0@, j));
        }
    }
}

/// Beyond its support a string acts on nothing.
proof fn lemma_support_tail(p: PauliString, n: int)
    requires
        p.wf(),
        support_end(p) <= n,
    ensures
        tail_clear(p.x@, n),
        tail_clear(p.z@, n),
{
    lemma_support_end_bound(p, p.nqubits as int);
    assert forall|i: int| n <= i < 64 * p.x@.len() implies !#[trigger] row_bit(p.x@, i) by {
        if i < p.nqubits {
            assert(!acts_on(p, i));
        }
    }
    assert forall|i: int| n <= i < 64 * p.z@.len() implies !#[trigger] row_bit(p.z@, i) by {
        if i < p.nqubits {
            assert(!acts_on(p, i));
        }
    }
}

/// Strings with the same bits are the same operator on any register.
proof fn lemma_same_op(a: PauliString, b: PauliString, n: int)
    requires
        same_bits(a.x@, b.x@),
        same_bits(a.z@, b.z@),
        a.phase == b.phase,
    ensures
        a.op_on(n) == b.op_on(n),
{
    assert(a.op_on(n).x =~= b.op_on(n).x);
    assert(a.op_on(n).z =~= b.op_on(n).z);
}

/// Changing the register changes neither the `Y` count nor Hermiticity.
proof fn lemma_sign_on_register(a: PauliString, b: PauliString)
    requires
        a.wf(),
        b.wf(),
        same_bits(a.x@, b.x@),
        same_bits(a.z@, b.z@),
        a.phase == b.phase,
    ensures
        a.y_sites() == b.y_sites(),
        a.op().hermitian() == b.op().hermitian(),
        b.op().hermitian() <==> (b.phase - b.y_sites()) % 2 == 0,
{
    let m = a.nqubits as int;
    let n = b.nqubits as int;
    let low = if m < n {
        m
    } else {
        n
    };
    crate::pauli::lemma_shared_is_y_count(a.x@, a.z@, m, m);
    crate::pauli::lemma_shared_is_y_count(b.x@, b.z@, n, n);
    lemma_shared_same(a, b, low);
    assert forall|i: int| low <= i implies !#[trigger] row_bit(a.x@, i) && !row_bit(b.x@, i) by {
        assert(row_bit(a.x@, i) == row_bit(b.x@, i));
    }
    assert forall|i: int| low <= i implies !#[trigger] row_bit(b.x@, i) by {
        assert(!row_bit(a.x@, i));
    }
    crate::pauli::lemma_shared_tail(a.x@, a.z@, low, m);
    crate::pauli::lemma_shared_tail(b.x@, b.z@, low, n);
    crate::pauli::lemma_y_count_parity(a.op().x, a.op().z, m);
    crate::pauli::lemma_y_count_parity(b.op().x, b.op().z, n);
}

proof fn lemma_shared_same(a: PauliString, b: PauliString, k: int)
    requires
        same_bits(a.x@, b.x@),
        same_bits(a.z@, b.z@),
    ensures
        crate::pauli::shared_bits(a.x@, a.z@, k) == crate::pauli::shared_bits(b.x@, b.z@, k),
    decreases k,
{
    if k > 0 {
        lemma_shared_same(a, b, k - 1);
        assert(row_bit(a.x@, k - 1) == row_bit(b.x@, k - 1));
        assert(row_bit(a.z@, k - 1) == row_bit(b.z@, k - 1));
    }
}

// ---------------------------------------------------------------------------
// Frame decomposition
// ---------------------------------------------------------------------------
/// The preimage of a Hermitian operator under a Clifford frame is Hermitian.
pub proof fn law_preimage_is_hermitian(t: Seq<PauliOp>, p: PauliOp, n: int)
    requires
        clifford(t, n),
        p.on(n),
        p.hermitian(),
    ensures
        preimage_op(t, p, n).on(n),
        preimage_op(t, p, n).hermitian(),
{
    law_preimage_of_pauli(t, p.x, p.z, n);
    crate::pauli::lemma_y_count_parity(p.x, p.z, n);
    let product = crate::frame::row_product(t, p.x, p.z, n);
    let k = y_count(p.x, p.z, n);
    assert(product.shifted(k).hermitian());
    assert(p.phase % 2 == k % 2);
    assert((product.phase + p.phase) % 4 % 2 == (product.phase + k) % 4 % 2);
}

impl<A: Copy> TableauSimulator<A> {
    /// Decomposes Pauli `p` in the frame: `Q = R†PR = i^k X^a Z^b`.
    pub fn decompose(&self, p: &PauliString) -> (r: Result<Decomposition, SimError>)
        requires
            self.wf(),
            p.wf(),
        ensures
            match r {
                Err(e) => if !p.op().hermitian() {
                    e == SimError::NonHermitianPauli
                } else {
                    support_end(*p) > self.core.n && e == (SimError::QubitIndexOutOfRange {
                        index: (support_end(*p) - 1) as usize,
                        num_qubits: self.core.n,
                    })
                },
                Ok(d) => p.op().hermitian() && support_end(*p) <= self.core.n && d.wf(
                    self.core.n as int,
                    self.core.words as int,
                ) && d.op(self.core.n as int) == preimage_op(
                    self.core.r@,
                    p.op_on(self.core.n as int),
                    self.core.n as int,
                ) && d.op(self.core.n as int).hermitian(),
            },
    {
        if measurement_phase_sign(p).is_none() {
            return Err(SimError::NonHermitianPauli);
        }
        let wide: PauliString = match pauli_on_register(p, self.core.n) {
            Ok(q) => q,
            Err(e) => {
                return Err(e);
            },
        };
        let ghost n = self.core.n as int;
        proof {
            lemma_same_op(wide, *p, n);
            lemma_sign_on_register(wide, *p);
            assert(wide.op() == wide.op_on(n));
            law_preimage_is_hermitian(self.core.r@, wide.op_on(n), n);
        }
        let row: RowPauli = self.core.r.preimage(&wide);
        Ok(Decomposition { a: Label(row.x), b: Label(row.z), phase: row.phase })
    }

    /// [`decompose`](Self::decompose) for a single-qubit basis axis.
    pub fn decompose_basis(&self, axis: PauliBasis, qubit: usize) -> (r: Decomposition)
        requires
            self.wf(),
            qubit < self.core.n,
        ensures
            r.wf(self.core.n as int, self.core.words as int),
            r.op(self.core.n as int) == axis_row(self.core.r@, axis, qubit as int),
            r.op(self.core.n as int).hermitian(),
    {
        let row: RowPauli = self.core.r.preimage_basis_row(axis, qubit);
        proof {
            let n = self.core.n as int;
            let t = self.core.r@;
            let q = qubit as int;
            assert(t[2 * q].hermitian() && t[2 * q + 1].hermitian());
            assert(t[2 * q].on(n) && t[2 * q + 1].on(n));
            assert(t[2 * q].anticommutes(t[2 * q + 1]));
            crate::pauli::lemma_times_hermitian(n, t[2 * q], t[2 * q + 1]);
        }
        let r = Decomposition { a: Label(row.x), b: Label(row.z), phase: row.phase };
        assert(r.op(self.core.n as int) =~= row.op(self.core.n as int));
        r
    }

    /// Begins a rotation or a measurement about `axis`: refuses an axis with an
    /// imaginary coefficient, grows the register to cover the support, and
    /// decomposes the axis in the frame.
    pub fn begin_axis(&mut self, axis: &PauliString) -> (r: Result<Decomposition, SimError>)
        requires
            old(self).wf(),
            axis.wf(),
            register_fits(axis.nqubits as int),
        ensures
            match r {
                Err(e) => !axis.op().hermitian() && e == SimError::NonHermitianPauli && *final(self)
                    == *old(self),
                Ok(d) => {
                    let n = final(self).core.n as int;
                    &&& axis.op().hermitian()
                    &&& final(self).after_gate(
                        old(self),
                        support_end(*axis),
                        old(self).grown_frame(support_end(*axis)),
                    )
                    &&& d.wf(n, final(self).core.words as int)
                    &&& d.op(n) == preimage_op(final(self).core.r@, axis.op_on(n), n)
                    &&& d.op(n).hermitian()
                },
            },
    {
        if measurement_phase_sign(axis).is_none() {
            return Err(SimError::NonHermitianPauli);
        }
        self.ensure_for(axis);
        self.decompose(axis)
    }

    /// Begins a rotation or a measurement about a single-qubit basis axis.
    pub fn begin_basis(&mut self, axis: PauliBasis, qubit: usize) -> (r: Decomposition)
        requires
            old(self).wf(),
            register_fits(qubit + 1),
        ensures
            final(self).after_gate(old(self), qubit + 1, old(self).grown_frame(qubit + 1)),
            r.wf(final(self).core.n as int, final(self).core.words as int),
            r.op(final(self).core.n as int) == axis_row(final(self).core.r@, axis, qubit as int),
            r.op(final(self).core.n as int).hermitian(),
    {
        self.ensure_qubits(qubit + 1);
        self.decompose_basis(axis, qubit)
    }

    /// The decomposition of a basis axis for a read that cannot grow the
    /// register.
    pub fn peek_axis(&self, axis: PauliBasis, q: usize) -> (r: Result<Decomposition, SimError>)
        requires
            self.wf(),
        ensures
            match r {
                Err(e) => q >= self.core.n && e == (SimError::QubitIndexOutOfRange {
                    index: q,
                    num_qubits: self.core.n,
                }),
                Ok(d) => q < self.core.n && d.wf(self.core.n as int, self.core.words as int) && d.op(
                    self.core.n as int,
                ) == axis_row(self.core.r@, axis, q as int),
            },
    {
        if q >= self.core.n {
            return Err(SimError::QubitIndexOutOfRange { index: q, num_qubits: self.core.n });
        }
        Ok(self.decompose_basis(axis, q))
    }

    /// Rejects a projected label count that exceeds the cap.
    pub fn check_cap(&self, rank: usize) -> (r: Result<(), SimError>)
        ensures
            match r {
                Ok(_) => rank <= self.core.rank_cap,
                Err(e) => rank > self.core.rank_cap && e == (SimError::RankOverflow {
                    rank,
                    cap: self.core.rank_cap,
                }),
            },
    {
        if rank > self.core.rank_cap {
            return Err(SimError::RankOverflow { rank, cap: self.core.rank_cap });
        }
        Ok(())
    }

    /// Locates every live label's coset partner and its sign parity.
    pub fn pair_slots(&self, d: &Decomposition) -> (r: Vec<PairSlot>)
        requires
            self.wf(),
            d.wf(self.core.n as int, self.core.words as int),
        ensures
            r@.len() == self.terms@.len(),
            forall|i: int|
                0 <= i < r@.len() ==> (#[trigger] r@[i]).sign == words_dot(
                    self.terms@[i].label.0@,
                    d.b.0@,
                ) && match r@[i].partner {
                    Some(j) => j < self.terms@.len() && self.terms@[j as int].label.0@ == xor_words(
                        self.terms@[i].label.0@,
                        d.a.0@,
                    ),
                    None => !live(self.terms@, xor_words(self.terms@[i].label.0@, d.a.0@)),
                },
    {
        let mut out: Vec<PairSlot> = Vec::new();
        let mut i: usize = 0;
        while i < self.terms.len()
            invariant
                i <= self.terms@.len(),
                self.wf(),
                d.wf(self.core.n as int, self.core.words as int),
                out@.len() == i,
                forall|k: int|
                    0 <= k < i ==> (#[trigger] out@[k]).sign == words_dot(
                        self.terms@[k].label.0@,
                        d.b.0@,
                    ) && match out@[k].partner {
                        Some(j) => j < self.terms@.len() && self.terms@[j as int].label.0@
                            == xor_words(self.terms@[k].label.0@, d.a.0@),
                        None => !live(self.terms@, xor_words(self.terms@[k].label.0@, d.a.0@)),
                    },
            decreases self.terms@.len() - i,
        {
            assert(self.terms@[i as int].label.0@.len() == self.core.words);
            let partner_label: Label = xor_label(&self.terms[i].label, &d.a);
            assert(terms_wf(
                self.terms@,
                partner_label.0@.len() as int,
                self.core.n as int,
            ));
            let partner: Option<usize> = find(&self.terms, partner_label.0.as_slice());
            let sign: bool = dot_parity(self.terms[i].label.0.as_slice(), d.b.0.as_slice());
            out.push(PairSlot { partner, sign });
            i += 1;
        }
        out
    }

    /// The rank a staged rewrite would leave.
    pub open spec fn rewritten_rank(&self, rewrite: &PairRewrite<A>) -> int {
        count_set(rewrite.keep@, rewrite.keep@.len() as int) + count_sent(
            rewrite.sent@,
            rewrite.sent@.len() as int,
        )
    }

    /// The staged rewrite matches the live terms: one entry per label, and a
    /// partner gains an amplitude only where none is live.
    pub open spec fn rewrite_fits(&self, d: &Decomposition, rewrite: &PairRewrite<A>) -> bool {
        &&& rewrite.values@.len() == self.terms@.len()
        &&& rewrite.keep@.len() == self.terms@.len()
        &&& rewrite.sent@.len() == self.terms@.len()
        &&& forall|i: int|
            0 <= i < self.terms@.len() && (#[trigger] rewrite.sent@[i]) is Some ==> !live(
                self.terms@,
                xor_words(self.terms@[i].label.0@, d.a.0@),
            )
    }

    /// The terms a staged rewrite leaves: each kept label with its new
    /// amplitude, and each gained partner with the amplitude sent across.
    pub open spec fn rewritten(
        &self,
        d: &Decomposition,
        rewrite: &PairRewrite<A>,
        terms: Seq<Term<A>>,
    ) -> bool {
        forall|k: Seq<u64>, v: A|
            #[trigger] holds(terms, k, v) <==> (exists|i: int|
                0 <= i < self.terms@.len() && #[trigger] rewrite.keep@[i] && self.terms@[i].label.0@
                    == k && rewrite.values@[i] == v) || (exists|i: int|
                0 <= i < self.terms@.len() && (#[trigger] rewrite.sent@[i]) == Some(v) && xor_words(
                    self.terms@[i].label.0@,
                    d.a.0@,
                ) == k)
    }

    /// The amplitudes kept by a rewrite, in label order.
    fn kept_terms(&self, values: &Vec<A>, keep: &Vec<bool>) -> (r: Vec<Term<A>>)
        requires
            self.wf(),
            values@.len() == self.terms@.len(),
            keep@.len() == self.terms@.len(),
        ensures
            terms_wf(r@, self.core.words as int, self.core.n as int),
            r@.len() == count_set(keep@, keep@.len() as int),
            forall|k: Seq<u64>, v: A|
                #[trigger] holds(r@, k, v) <==> exists|i: int|
                    0 <= i < self.terms@.len() && #[trigger] keep@[i] && self.terms@[i].label.0@ == k
                        && values@[i] == v,
            forall|j: int| 0 <= j < r@.len() ==> live(self.terms@, (#[trigger] r@[j]).label.0@),
    {
        let mut out: Vec<Term<A>> = Vec::new();
        let ghost mut from: Seq<int> = Seq::empty();
        let mut i: usize = 0;
        while i < self.terms.len()
            invariant
                i <= self.terms@.len(),
                self.wf(),
                values@.len() == self.terms@.len(),
                keep@.len() == self.terms@.len(),
                from.len() == out@.len(),
                out@.len() == count_set(keep@, i as int),
                forall|j: int|
                    0 <= j < out@.len() ==> 0 <= #[trigger] from[j] < i && keep@[from[j]]
                        && out@[j].label.0@ == self.terms@[from[j]].label.0@ && out@[j].value
                        == values@[from[j]],
                forall|a: int, b: int| 0 <= a < b < out@.len() ==> #[trigger] from[a] < #[trigger] from[b],
                forall|m: int|
                    0 <= m < i && #[trigger] keep@[m] ==> exists|j: int|
                        0 <= j < out@.len() && #[trigger] from[j] == m,
            decreases self.terms@.len() - i,
        {
            if keep[i] {
                let words: Vec<u64> = self.terms[i].label.0.clone();
                assert(words@ =~= self.terms@[i as int].label.0@);
                let ghost before = from;
                out.push(Term { label: Label(words), value: values[i] });
                proof {
                    from = from.push(i as int);
                    assert forall|m: int| 0 <= m < i + 1 && #[trigger] keep@[m] implies exists|j: int|
                        0 <= j < out@.len() && #[trigger] from[j] == m by {
                        if m < i {
                            let j = choose|j: int| 0 <= j < before.len() && #[trigger] before[j] == m;
                            assert(from[j] == m);
                        } else {
                            assert(from[from.len() - 1] == m);
                        }
                    }
                }
            }
            i += 1;
        }
        proof {
            assert forall|a: int, b: int| 0 <= a < b < out@.len() implies lex_less(
                #[trigger] out@[a].label.0@,
                #[trigger] out@[b].label.0@,
            ) by {
                assert(from[a] < from[b]);
            }
            assert forall|j: int| 0 <= j < out@.len() implies (#[trigger] out@[j]).label.0@.len()
                == self.core.words && tail_clear(out@[j].label.0@, self.core.n as int) by {
                assert(self.terms@[from[j]].label.0@.len() == self.core.words);
            }
            assert forall|k: Seq<u64>, v: A| #[trigger] holds(out@, k, v) <==> exists|m: int|
                0 <= m < self.terms@.len() && #[trigger] keep@[m] && self.terms@[m].label.0@ == k
                    && values@[m] == v by {
                if holds(out@, k, v) {
                    let j = choose|j: int|
                        0 <= j < out@.len() && (#[trigger] out@[j]).label.0@ == k && out@[j].value == v;
                    assert(keep@[from[j]]);
                }
                if exists|m: int|
                    0 <= m < self.terms@.len() && #[trigger] keep@[m] && self.terms@[m].label.0@ == k
                        && values@[m] == v {
                    let m = choose|m: int|
                        0 <= m < self.terms@.len() && #[trigger] keep@[m] && self.terms@[m].label.0@
                            == k && values@[m] == v;
                    let j = choose|j: int| 0 <= j < out@.len() && #[trigger] from[j] == m;
                    assert(out@[j].label.0@ == k && out@[j].value == v);
                }
            }
            assert forall|j: int| 0 <= j < out@.len() implies live(
                self.terms@,
                (#[trigger] out@[j]).label.0@,
            ) by {
                assert(self.terms@[from[j]].label.0@ == out@[j].label.0@);
            }
        }
        out
    }

    /// The partners a rewrite adds, in no particular order.
    fn sent_terms(&self, d: &Decomposition, sent: &Vec<Option<A>>) -> (r: Vec<Term<A>>)
        requires
            self.wf(),
            d.wf(self.core.n as int, self.core.words as int),
            sent@.len() == self.terms@.len(),
            forall|i: int|
                0 <= i < self.terms@.len() && (#[trigger] sent@[i]) is Some ==> !live(
                    self.terms@,
                    xor_words(self.terms@[i].label.0@, d.a.0@),
                ),
        ensures
            crate::terms::distinct_terms(r@, self.core.words as int, self.core.n as int),
            r@.len() == count_sent(sent@, sent@.len() as int),
            forall|k: Seq<u64>, v: A|
                #[trigger] holds(r@, k, v) <==> exists|i: int|
                    0 <= i < self.terms@.len() && (#[trigger] sent@[i]) == Some(v) && xor_words(
                        self.terms@[i].label.0@,
                        d.a.0@,
                    ) == k,
            forall|j: int| 0 <= j < r@.len() ==> !live(self.terms@, (#[trigger] r@[j]).label.0@),
    {
        let mut out: Vec<Term<A>> = Vec::new();
        let ghost mut from: Seq<int> = Seq::empty();
        let mut i: usize = 0;
        while i < self.terms.len()
            invariant
                i <= self.terms@.len(),
                self.wf(),
                d.wf(self.core.n as int, self.core.words as int),
                sent@.len() == self.terms@.len(),
                from.len() == out@.len(),
                out@.len() == count_sent(sent@, i as int),
                forall|m: int|
                    0 <= m < self.terms@.len() && (#[trigger] sent@[m]) is Some ==> !live(
                        self.terms@,
                        xor_words(self.terms@[m].label.0@, d.a.0@),
                    ),
                forall|j: int|
                    0 <= j < out@.len() ==> 0 <= #[trigger] from[j] < i && sent@[from[j]] == Some(
                        out@[j].value,
                    ) && out@[j].label.0@ == xor_words(self.terms@[from[j]].label.0@, d.a.0@),
                forall|a: int, b: int| 0 <= a < b < out@.len() ==> #[trigger] from[a] < #[trigger] from[b],
                forall|m: int|
                    0 <= m < i && (#[trigger] sent@[m]) is Some ==> exists|j: int|
                        0 <= j < out@.len() && #[trigger] from[j] == m,
            decreases self.terms@.len() - i,
        {
            if let Some(value) = sent[i] {
                assert(self.terms@[i as int].label.0@.len() == self.core.words);
                let label: Label = xor_label(&self.terms[i].label, &d.a);
                let ghost before = from;
                out.push(Term { label, value });
                proof {
                    from = from.push(i as int);
                    assert forall|m: int| 0 <= m < i + 1 && (#[trigger] sent@[m]) is Some implies exists|j: int|
                        0 <= j < out@.len() && #[trigger] from[j] == m by {
                        if m < i {
                            let j = choose|j: int| 0 <= j < before.len() && #[trigger] before[j] == m;
                            assert(from[j] == m);
                        } else {
                            assert(from[from.len() - 1] == m);
                        }
                    }
                }
            }
            i += 1;
        }
        proof {
            let n = self.core.n as int;
            let a = d.a.0@;
            assert forall|j: int| 0 <= j < out@.len() implies (#[trigger] out@[j]).label.0@.len()
                == self.core.words && tail_clear(out@[j].label.0@, n) by {
                let t = self.terms@[from[j]];
                assert(t.label.0@.len() == self.core.words && tail_clear(t.label.0@, n));
                lemma_xor_words(t.label.0@, t.label.0@, a, n);
            }
            assert forall|p: int, q: int| 0 <= p < q < out@.len() implies (#[trigger] out@[p]).label.0@
                != (#[trigger] out@[q]).label.0@ by {
                assert(from[p] < from[q]);
                let s = self.terms@[from[p]];
                let t = self.terms@[from[q]];
                assert(lex_less(s.label.0@, t.label.0@));
                assert(s.label.0@.len() == self.core.words && t.label.0@.len() == self.core.words);
                lemma_xor_words(s.label.0@, t.label.0@, a, n);
                if s.label.0@ == t.label.0@ {
                    crate::terms::lemma_lex_irreflexive(s.label.0@);
                }
            }
            assert forall|k: Seq<u64>, v: A| #[trigger] holds(out@, k, v) <==> exists|m: int|
                0 <= m < self.terms@.len() && (#[trigger] sent@[m]) == Some(v) && xor_words(
                    self.terms@[m].label.0@,
                    a,
                ) == k by {
                if holds(out@, k, v) {
                    let j = choose|j: int|
                        0 <= j < out@.len() && (#[trigger] out@[j]).label.0@ == k && out@[j].value == v;
                    assert(sent@[from[j]] == Some(v));
                }
                if exists|m: int|
                    0 <= m < self.terms@.len() && (#[trigger] sent@[m]) == Some(v) && xor_words(
                        self.terms@[m].label.0@,
                        a,
                    ) == k {
                    let m = choose|m: int|
                        0 <= m < self.terms@.len() && (#[trigger] sent@[m]) == Some(v) && xor_words(
                            self.terms@[m].label.0@,
                            a,
                        ) == k;
                    let j = choose|j: int| 0 <= j < out@.len() && #[trigger] from[j] == m;
                    assert(out@[j].label.0@ == k && out@[j].value == v);
                }
            }
            assert forall|j: int| 0 <= j < out@.len() implies !live(
                self.terms@,
                (#[trigger] out@[j]).label.0@,
            ) by {
                assert(sent@[from[j]] is Some);
            }
        }
        out
    }

    /// Installs a staged coset-pair rewrite. The rank is vetted before a single
    /// term is written: an empty result and a rank past the cap are errors that
    /// leave the state as it was.
    pub fn commit_pair_rewrite(&mut self, d: &Decomposition, rewrite: &PairRewrite<A>) -> (r: Result<
        (),
        SimError,
    >)
        requires
            old(self).wf(),
            d.wf(old(self).core.n as int, old(self).core.words as int),
            old(self).rewrite_fits(d, rewrite),
            2 * old(self).terms@.len() <= usize::MAX,
        ensures
            ({
                let rank = old(self).rewritten_rank(rewrite);
                match r {
                    Err(e) => *final(self) == *old(self) && if rank == 0 {
                        e == (SimError::EmptyStateAfterPruning {
                            epsilon: old(self).core.prune_epsilon,
                        })
                    } else {
                        rank > old(self).core.rank_cap && e == (SimError::RankOverflow {
                            rank: rank as usize,
                            cap: old(self).core.rank_cap,
                        })
                    },
                    Ok(_) => 0 < rank <= old(self).core.rank_cap && final(self).wf()
                        && final(self).core == old(self).core && final(self).terms@.len() == rank
                        && old(self).rewritten(d, rewrite, final(self).terms@),
                }
            }),
    {
        let kept: Vec<Term<A>> = self.kept_terms(&rewrite.values, &rewrite.keep);
        let sent: Vec<Term<A>> = self.sent_terms(d, &rewrite.sent);
        proof {
            lemma_count_set_bound(rewrite.keep@, rewrite.keep@.len() as int);
            lemma_count_sent_bound(rewrite.sent@, rewrite.sent@.len() as int);
        }
        let rank: usize = kept.len() + sent.len();
        if rank == 0 {
            return Err(
                SimError::EmptyStateAfterPruning { epsilon: self.core.prune_epsilon },
            );
        }
        match self.check_cap(rank) {
            Ok(_) => {},
            Err(e) => {
                return Err(e);
            },
        }
        let ghost words = self.core.words as int;
        let ghost n = self.core.n as int;
        let sorted: Vec<Term<A>> = sort_terms(&sent, Ghost(words), Ghost(n));
        proof {
            assert forall|i: int, j: int|
                0 <= i < kept@.len() && 0 <= j < sorted@.len() implies (#[trigger] kept@[i]).label.0@ != (
            #[trigger] sorted@[j]).label.0@ by {
                assert(live(self.terms@, kept@[i].label.0@));
                assert(holds(sorted@, sorted@[j].label.0@, sorted@[j].value));
                assert(holds(sent@, sorted@[j].label.0@, sorted@[j].value));
                let m = choose|m: int|
                    0 <= m < sent@.len() && (#[trigger] sent@[m]).label.0@ == sorted@[j].label.0@
                        && sent@[m].value == sorted@[j].value;
                assert(!live(self.terms@, sent@[m].label.0@));
            }
        }
        let merged: Vec<Term<A>> = merge_terms(&kept, &sorted, Ghost(words), Ghost(n));
        proof {
            assert forall|k: Seq<u64>, v: A|
                #[trigger] holds(merged@, k, v) <==> (exists|i: int|
                    0 <= i < self.terms@.len() && #[trigger] rewrite.keep@[i]
                        && self.terms@[i].label.0@ == k && rewrite.values@[i] == v) || (exists|i: int|
                    0 <= i < self.terms@.len() && (#[trigger] rewrite.sent@[i]) == Some(v)
                        && xor_words(self.terms@[i].label.0@, d.a.0@) == k) by {
                assert(holds(merged@, k, v) <==> holds(kept@, k, v) || holds(sorted@, k, v));
                assert(holds(sorted@, k, v) <==> holds(sent@, k, v));
            }
        }
        self.terms = merged;
        Ok(())
    }

    /// Rewrites the amplitudes of a frame-diagonal rotation in place. The rank
    /// cannot grow, but a cap lowered under the live rank is still reported, and
    /// before anything is touched.
    pub fn commit_diagonal(&mut self, values: &Vec<A>) -> (r: Result<(), SimError>)
        requires
            old(self).wf(),
            values@.len() == old(self).terms@.len(),
        ensures
            match r {
                Err(e) => *final(self) == *old(self) && old(self).terms@.len()
                    > old(self).core.rank_cap && e == (SimError::RankOverflow {
                    rank: old(self).terms@.len() as usize,
                    cap: old(self).core.rank_cap,
                }),
                Ok(_) => old(self).terms@.len() <= old(self).core.rank_cap && final(self).wf()
                    && final(self).core == old(self).core && final(self).terms@.len() == old(
                    self,
                ).terms@.len() && forall|i: int|
                    0 <= i < values@.len() ==> (#[trigger] final(self).terms@[i]).label == old(
                        self,
                    ).terms@[i].label && final(self).terms@[i].value == values@[i],
            },
    {
        match self.check_cap(self.terms.len()) {
            Ok(_) => {},
            Err(e) => {
                return Err(e);
            },
        }
        let mut i: usize = 0;
        while i < values.len()
            invariant
                i <= values@.len(),
                values@.len() == self.terms@.len(),
                self.terms@.len() == old(self).terms@.len(),
                self.core == old(self).core,
                forall|k: int|
                    0 <= k < self.terms@.len() ==> (#[trigger] self.terms@[k]).label == old(
                        self,
                    ).terms@[k].label && self.terms@[k].value == if k < i {
                        values@[k]
                    } else {
                        old(self).terms@[k].value
                    },
            decreases values@.len() - i,
        {
            self.terms[i].value = values[i];
            i += 1;
        }
        proof {
            assert(terms_wf(old(self).terms@, self.core.words as int, self.core.n as int));
            assert forall|a: int, b: int| 0 <= a < b < self.terms@.len() implies lex_less(
                #[trigger] self.terms@[a].label.0@,
                #[trigger] self.terms@[b].label.0@,
            ) by {
                assert(lex_less(old(self).terms@[a].label.0@, old(self).terms@[b].label.0@));
            }
            assert forall|k: int| 0 <= k < self.terms@.len() implies (#[trigger] self.terms@[k]).label.0@.len()
                == self.core.words && tail_clear(
                self.terms@[k].label.0@,
                self.core.n as int,
            ) by {
                assert(old(self).terms@[k].label.0@.len() == self.core.words);
            }
        }
        Ok(())
    }
}

/// How many of the first `n` entries hold an amplitude.
pub open spec fn count_sent<A>(sent: Seq<Option<A>>, n: int) -> int
    decreases n,
{
    if n <= 0 {
        0
    } else {
        count_sent(sent, n - 1) + if sent[n - 1] is Some {
            1int
        } else {
            0int
        }
    }
}

proof fn lemma_count_sent_bound<A>(sent: Seq<Option<A>>, n: int)
    requires
        0 <= n,
    ensures
        0 <= count_sent(sent, n) <= n,
    decreases n,
{
    if n > 0 {
        lemma_count_sent_bound(sent, n - 1);
    }
}

// ---------------------------------------------------------------------------
// Measurement
// ---------------------------------------------------------------------------
/// `G = -i·Q·Z_p = i^{k+3}·X^a·Z^{b ⊕ e_p}`, the generator of the frame
/// compression after a random measurement of `Q` with pivot `p`.
pub open spec fn compression_op(q: PauliOp, pivot: int, n: int) -> PauliOp {
    q.times(crate::pauli::z_op(n, pivot)).shifted(3)
}

/// The frame after a random measurement of `Q` came out `outcome`:
/// `R <- R·Z_p^s·exp(iπ/4·G)`.
pub open spec fn measured_frame(
    t: Seq<PauliOp>,
    q: PauliOp,
    pivot: int,
    outcome: bool,
    n: int,
) -> Seq<PauliOp> {
    let folded = if outcome {
        tableau_right_z(t, pivot)
    } else {
        t
    };
    tableau_right_exp(folded, compression_op(q, pivot, n))
}

/// The compression generator is Hermitian whenever the pivot is a set bit of
/// the coset shift, which makes the measured frame a Clifford's.
pub proof fn law_measured_frame_is_clifford(
    t: Seq<PauliOp>,
    q: PauliOp,
    pivot: int,
    outcome: bool,
    n: int,
)
    requires
        clifford(t, n),
        q.on(n),
        q.hermitian(),
        0 <= pivot < n,
        q.x[pivot],
    ensures
        compression_op(q, pivot, n).on(n),
        compression_op(q, pivot, n).hermitian(),
        clifford(measured_frame(t, q, pivot, outcome, n), n),
{
    let zp = crate::pauli::z_op(n, pivot);
    crate::pauli::lemma_dot_zero(zp.x, zp.z);
    assert(zp.hermitian());
    crate::pauli::lemma_dot_zero(q.z, zp.x);
    crate::pauli::lemma_dot_unit(q.x, zp.z, pivot);
    assert(q.anticommutes(zp));
    crate::pauli::lemma_times_hermitian(n, q, zp);
    law_right_z(t, n, pivot);
    let folded = if outcome {
        tableau_right_z(t, pivot)
    } else {
        t
    };
    law_right_exp(folded, n, compression_op(q, pivot, n));
}

/// After a random measurement the measured observable is `(-1)^s·Z_pivot` in
/// the new frame: measured again, it comes out `s` with certainty.
pub proof fn law_measured_pauli_is_settled(
    t: Seq<PauliOp>,
    p: PauliOp,
    pivot: int,
    outcome: bool,
    n: int,
)
    requires
        clifford(t, n),
        p.on(n),
        p.hermitian(),
        0 <= pivot < n,
        preimage_op(t, p, n).x[pivot],
    ensures
        preimage_op(measured_frame(t, preimage_op(t, p, n), pivot, outcome, n), p, n)
            == crate::pauli::z_op(n, pivot).shifted(if outcome {
            2
        } else {
            0
        }),
{
    law_preimage_is_hermitian(t, p, n);
    lemma_measured_op_is_settled(t, p, pivot, outcome, n);
}

/// The same where the observable is known to be Hermitian in the frame.
#[verifier::rlimit(60)]
#[verifier::spinoff_prover]
pub proof fn lemma_measured_op_is_settled(
    t: Seq<PauliOp>,
    p: PauliOp,
    pivot: int,
    outcome: bool,
    n: int,
)
    requires
        clifford(t, n),
        p.on(n),
        preimage_op(t, p, n).on(n),
        preimage_op(t, p, n).hermitian(),
        0 <= pivot < n,
        preimage_op(t, p, n).x[pivot],
    ensures
        preimage_op(measured_frame(t, preimage_op(t, p, n), pivot, outcome, n), p, n)
            == crate::pauli::z_op(n, pivot).shifted(if outcome {
            2
        } else {
            0
        }),
{
    let q = preimage_op(t, p, n);
    let zp = crate::pauli::z_op(n, pivot);
    let g = compression_op(q, pivot, n);
    law_measured_frame_is_clifford(t, q, pivot, outcome, n);
    law_right_z(t, n, pivot);
    law_right_z_conjugates_preimages(t, n, pivot, p);
    let folded = if outcome {
        tableau_right_z(t, pivot)
    } else {
        t
    };
    law_right_exp_conjugates_preimages(folded, n, g, p);
    let k: int = if outcome {
        2
    } else {
        0
    };
    assert(q.shifted(0) == q);
    let turned = q.shifted(k);
    assert(preimage_op(folded, p, n) == turned);
    lemma_settled_product(n, q, zp, k);
    assert(turned.anticommutes(g)) by {
        crate::pauli::lemma_dot_zero(zp.x, zp.z);
        crate::pauli::lemma_dot_zero(q.z, zp.x);
        crate::pauli::lemma_dot_unit(q.x, zp.z, pivot);
        crate::pauli::lemma_anticommutes_times(n, q, zp, q);
        crate::pauli::lemma_anticommutes_symmetric(n, q, q);
    }
}

/// `i^k·q·(i^3·q·z)·i` is `i^k·z` for a Hermitian `q`.
proof fn lemma_settled_product(n: int, q: PauliOp, z: PauliOp, k: int)
    requires
        q.on(n),
        z.on(n),
        q.hermitian(),
    ensures
        q.shifted(k).times(q.times(z).shifted(3)).shifted(1) == z.shifted(k),
{
    let qz = q.times(z);
    crate::pauli::lemma_times_on(n, q, z);
    crate::pauli::lemma_times_associative(n, q, q, z);
    crate::pauli::lemma_times_square(n, q);
    crate::pauli::lemma_times_identity(n, z);
    assert(q.times(qz) == z);
    let s = q.shifted(k);
    assert(s.on(n));
    crate::pauli::lemma_times_shifted(n, s, qz, 3);
    crate::pauli::lemma_times_shifted(n, q, qz, k);
    assert(z.shifted(k).shifted(3).shifted(1) == z.shifted(k));
}

impl<A: Copy> TableauSimulator<A> {
    /// The lowest set bit of the coset shift of an off-diagonal observable.
    pub fn measurement_pivot(&self, d: &Decomposition) -> (r: usize)
        requires
            self.wf(),
            d.wf(self.core.n as int, self.core.words as int),
            !d.diagonal(),
        ensures
            r < self.core.n,
            row_bit(d.a.0@, r as int),
            forall|i: int| i < r ==> !#[trigger] row_bit(d.a.0@, i),
    {
        match first_set_bit(d.a.0.as_slice()) {
            Some(p) => p,
            None => 0,
        }
    }

    /// Installs the projection of an off-diagonal measurement that came out
    /// `outcome`, and updates the frame to match. The frame moves only once the
    /// terms are committed, so a refused projection leaves both as they were.
    pub fn commit_random_measurement(
        &mut self,
        d: &Decomposition,
        outcome: bool,
        rewrite: &PairRewrite<A>,
    ) -> (r: Result<(), SimError>)
        requires
            old(self).wf(),
            d.wf(old(self).core.n as int, old(self).core.words as int),
            d.op(old(self).core.n as int).hermitian(),
            !d.diagonal(),
            old(self).rewrite_fits(d, rewrite),
            2 * old(self).terms@.len() <= usize::MAX,
        ensures
            ({
                let rank = old(self).rewritten_rank(rewrite);
                let n = old(self).core.n as int;
                match r {
                    Err(e) => *final(self) == *old(self) && if rank == 0 {
                        e == (SimError::EmptyStateAfterPruning {
                            epsilon: old(self).core.prune_epsilon,
                        })
                    } else {
                        rank > old(self).core.rank_cap && e == (SimError::RankOverflow {
                            rank: rank as usize,
                            cap: old(self).core.rank_cap,
                        })
                    },
                    Ok(_) => {
                        &&& 0 < rank <= old(self).core.rank_cap
                        &&& final(self).wf()
                        &&& final(self).core.n == old(self).core.n
                        &&& final(self).core.rng == old(self).core.rng
                        &&& final(self).core.prune_epsilon == old(self).core.prune_epsilon
                        &&& final(self).core.rank_cap == old(self).core.rank_cap
                        &&& final(self).terms@.len() == rank
                        &&& old(self).rewritten(d, rewrite, final(self).terms@)
                        &&& exists|pivot: int|
                            {
                                &&& 0 <= pivot < n
                                &&& #[trigger] row_bit(d.a.0@, pivot)
                                &&& forall|i: int| i < pivot ==> !#[trigger] row_bit(d.a.0@, i)
                                &&& final(self).core.r@ == measured_frame(
                                    old(self).core.r@,
                                    d.op(n),
                                    pivot,
                                    outcome,
                                    n,
                                )
                            }
                    },
                }
            }),
    {
        let pivot: usize = self.measurement_pivot(d);
        let ghost n = self.core.n as int;
        let ghost q = d.op(n);
        match self.commit_pair_rewrite(d, rewrite) {
            Ok(_) => {},
            Err(e) => {
                return Err(e);
            },
        }
        proof {
            assert(q.x[pivot as int]);
            law_measured_frame_is_clifford(self.core.r@, q, pivot as int, outcome, n);
        }
        let ghost t0 = self.core.r@;
        if outcome {
            self.core.r.right_pauli_z(pivot);
        }
        let mut gb: Label = Label(copy_words(&d.b.0));
        gb.flip(pivot);
        let g = RowPauli { x: copy_words(&d.a.0), z: gb.0, phase: (d.phase + 3) % 4 };
        proof {
            assert forall|i: int| n <= i < 64 * g.z@.len() implies !#[trigger] row_bit(g.z@, i) by {
                assert(!row_bit(d.b.0@, i));
            }
            assert(g.wf(n, self.core.words as int));
            let want = compression_op(q, pivot as int, n);
            crate::pauli::lemma_dot_zero(q.z, crate::pauli::z_op(n, pivot as int).x);
            assert(g.op(n).x =~= want.x);
            assert(g.op(n).z =~= want.z);
            assert(g.op(n).phase == want.phase);
        }
        self.core.r.right_pauli_exp(&g);
        assert(row_bit(d.a.0@, pivot as int));
        Ok(())
    }

    /// Whether each live label is a `+1` eigenstate of a frame-diagonal
    /// observable: `i^k·(-1)^⟨b,c⟩ = +1`.
    pub fn eigen_plus(&self, d: &Decomposition) -> (r: Vec<bool>)
        requires
            self.wf(),
            d.wf(self.core.n as int, self.core.words as int),
        ensures
            r@.len() == self.terms@.len(),
            forall|i: int|
                0 <= i < r@.len() ==> #[trigger] r@[i] == is_eigen_plus(d, self.terms@[i].label.0@),
    {
        let mut out: Vec<bool> = Vec::new();
        let mut i: usize = 0;
        while i < self.terms.len()
            invariant
                i <= self.terms@.len(),
                self.wf(),
                d.wf(self.core.n as int, self.core.words as int),
                out@.len() == i,
                forall|k: int|
                    0 <= k < i ==> #[trigger] out@[k] == is_eigen_plus(d, self.terms@[k].label.0@),
            decreases self.terms@.len() - i,
        {
            assert(self.terms@[i as int].label.0@.len() == self.core.words);
            let odd: bool = dot_parity(self.terms[i].label.0.as_slice(), d.b.0.as_slice());
            out.push(odd == (d.phase == 2));
            i += 1;
        }
        out
    }

    /// Projects a frame-diagonal measurement onto `outcome`: keeps the labels of
    /// that eigenvalue whose amplitude survives pruning (`heavy`), with their
    /// new amplitudes. The frame does not change.
    pub fn commit_projection(
        &mut self,
        d: &Decomposition,
        outcome: bool,
        values: &Vec<A>,
        heavy: &Vec<bool>,
    ) -> (r: Result<(), SimError>)
        requires
            old(self).wf(),
            d.wf(old(self).core.n as int, old(self).core.words as int),
            values@.len() == old(self).terms@.len(),
            heavy@.len() == old(self).terms@.len(),
        ensures
            ({
                let keep = projection_keep(old(self).terms@, d, outcome, heavy@);
                let rank = count_set(keep, keep.len() as int);
                match r {
                    Err(e) => *final(self) == *old(self) && if rank == 0 {
                        e == (SimError::EmptyStateAfterPruning {
                            epsilon: old(self).core.prune_epsilon,
                        })
                    } else {
                        rank > old(self).core.rank_cap && e == (SimError::RankOverflow {
                            rank: rank as usize,
                            cap: old(self).core.rank_cap,
                        })
                    },
                    Ok(_) => {
                        &&& 0 < rank <= old(self).core.rank_cap
                        &&& final(self).wf()
                        &&& final(self).core == old(self).core
                        &&& final(self).terms@.len() == rank
                        &&& forall|k: Seq<u64>, v: A| #[trigger]
                            holds(final(self).terms@, k, v) <==> exists|i: int|
                                0 <= i < old(self).terms@.len() && #[trigger] keep[i] && old(
                                    self,
                                ).terms@[i].label.0@ == k && values@[i] == v
                    },
                }
            }),
    {
        let plus: Vec<bool> = self.eigen_plus(d);
        let mut keep: Vec<bool> = Vec::new();
        let mut i: usize = 0;
        while i < plus.len()
            invariant
                i <= plus@.len(),
                plus@.len() == self.terms@.len(),
                heavy@.len() == self.terms@.len(),
                keep@.len() == i,
                forall|k: int|
                    0 <= k < plus@.len() ==> #[trigger] plus@[k] == is_eigen_plus(
                        d,
                        self.terms@[k].label.0@,
                    ),
                forall|k: int|
                    0 <= k < i ==> #[trigger] keep@[k] == projection_keep(
                        self.terms@,
                        d,
                        outcome,
                        heavy@,
                    )[k],
            decreases plus@.len() - i,
        {
            let kept: bool = plus[i] != outcome && heavy[i];
            keep.push(kept);
            i += 1;
        }
        assert(keep@ =~= projection_keep(self.terms@, d, outcome, heavy@));
        let out: Vec<Term<A>> = self.kept_terms(values, &keep);
        if out.len() == 0 {
            return Err(
                SimError::EmptyStateAfterPruning { epsilon: self.core.prune_epsilon },
            );
        }
        match self.check_cap(out.len()) {
            Ok(_) => {},
            Err(e) => {
                return Err(e);
            },
        }
        self.terms = out;
        Ok(())
    }

    /// Finishes a reset to the `+1` eigenstate of `basis`: after a `-1` outcome,
    /// applies the Pauli that maps that eigenstate onto the `+1` one.
    pub fn reset_correction(&mut self, basis: PauliBasis, q: usize, outcome: bool)
        requires
            old(self).wf(),
            q < old(self).core.n,
        ensures
            final(self).after_gate(
                old(self),
                q + 1,
                if !outcome {
                    old(self).core.r@
                } else if basis == PauliBasis::Z {
                    tableau_x(old(self).core.r@, q as int)
                } else {
                    tableau_z(old(self).core.r@, q as int)
                },
            ),
    {
        if outcome {
            match basis {
                PauliBasis::Z => self.x(q),
                _ => self.z(q),
            }
        }
    }

    /// The seven rotations of a `CCZ`: `T` on the three single `Z` axes, `T†` on
    /// the three pairs, `T` on the triple. Each entry is an axis and whether its
    /// rotation is the adjoint one.
    pub fn ccz_axes(&self, a: usize, b: usize, c: usize) -> (r: Result<
        Vec<(PauliString, bool)>,
        SimError,
    >)
        requires
            register_fits(self.core.n as int),
            register_fits(need_both(need_both(a as int, b as int) - 1, c as int)),
        ensures
            match r {
                Err(e) => if a == b || a == c {
                    e == SimError::RepeatedQubit(a)
                } else {
                    b == c && e == SimError::RepeatedQubit(b)
                },
                Ok(axes) => a != b && a != c && b != c && axes@.len() == 7 && forall|i: int|
                    0 <= i < 7 ==> is_z_axis((#[trigger] axes@[i]).0, ccz_operands(a, b, c)[i])
                        && axes@[i].1 == (3 <= i < 6) && axes@[i].0.nqubits == grown_n(
                        self.core.n as int,
                        need_both(need_both(a as int, b as int) - 1, c as int),
                    ),
            },
    {
        if a == b || a == c {
            return Err(SimError::RepeatedQubit(a));
        }
        if b == c {
            return Err(SimError::RepeatedQubit(b));
        }
        let pair: usize = if a < b {
            b
        } else {
            a
        };
        let top: usize = if pair < c {
            c
        } else {
            pair
        };
        let n: usize = if top < self.core.n {
            self.core.n
        } else {
            top + 1
        };
        let mut axes: Vec<(PauliString, bool)> = Vec::new();
        axes.push((z_axis(n, a, false, b, false, c), false));
        axes.push((z_axis(n, b, false, a, false, c), false));
        axes.push((z_axis(n, c, false, a, false, b), false));
        axes.push((z_axis(n, a, true, b, false, c), true));
        axes.push((z_axis(n, a, true, c, false, b), true));
        axes.push((z_axis(n, b, true, c, false, a), true));
        axes.push((z_axis(n, a, true, b, true, c), false));
        Ok(axes)
    }
}

/// Whether a label is a `+1` eigenstate of a frame-diagonal observable.
pub open spec fn is_eigen_plus(d: &Decomposition, label: Seq<u64>) -> bool {
    words_dot(label, d.b.0@) == (d.phase == 2)
}

/// The labels a frame-diagonal measurement keeps.
pub open spec fn projection_keep<A>(
    terms: Seq<Term<A>>,
    d: &Decomposition,
    outcome: bool,
    heavy: Seq<bool>,
) -> Seq<bool> {
    Seq::new(
        terms.len(),
        |i: int| is_eigen_plus(d, terms[i].label.0@) != outcome && heavy[i],
    )
}

/// The operands of the seven rotations of a `CCZ`.
pub open spec fn ccz_operands(a: usize, b: usize, c: usize) -> Seq<Set<int>> {
    let (a, b, c) = (a as int, b as int, c as int);
    seq![set![a], set![b], set![c], set![a, b], set![a, c], set![b, c], set![a, b, c]]
}

/// The string is `Z` on exactly the given qubits, with a positive sign.
pub open spec fn is_z_axis(p: PauliString, qubits: Set<int>) -> bool {
    &&& p.wf()
    &&& p.phase == 0
    &&& forall|i: int| !#[trigger] row_bit(p.x@, i)
    &&& forall|i: int| #[trigger] row_bit(p.z@, i) == qubits.contains(i)
}

/// `Z` on `first`, and on `second` and `third` where asked.
fn z_axis(
    n: usize,
    first: usize,
    with_second: bool,
    second: usize,
    with_third: bool,
    third: usize,
) -> (r: PauliString)
    requires
        register_fits(n as int),
        first < n,
        second < n,
        third < n,
    ensures
        r.wf(),
        r.nqubits == n,
        r.phase == 0,
        forall|i: int| !#[trigger] row_bit(r.x@, i),
        forall|i: int|
            #[trigger] row_bit(r.z@, i) == (i == first || (with_second && i == second) || (with_third
                && i == third)),
{
    let mut axis: PauliString = PauliString::new(n);
    axis.set_zbit(first, true);
    if with_second {
        axis.set_zbit(second, true);
    }
    if with_third {
        axis.set_zbit(third, true);
    }
    axis
}

fn copy_words(words: &Vec<u64>) -> (r: Vec<u64>)
    ensures
        r@ == words@,
{
    let r: Vec<u64> = words.clone();
    assert(r@ =~= words@);
    r
}

} // verus!
