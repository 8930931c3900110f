//! Owned preimage tableau for the simulator's Clifford frame `R`.
//!
//! [`Frame`] holds the preimages `R†·X_j·R` and `R†·Z_j·R` of the Pauli basis,
//! `2n` Pauli rows for `n` qubits: row `2j` is `R†·X_j·R` and row `2j + 1` is
//! `R†·Z_j·R`. Phases are in the X-then-Z convention, a row being
//! `i^k · X^a Z^b`.
//!
//! A row half has `W` words, where `W` is the number of words the register
//! needs, rounded up to the next of `{1, 2, 4, 8}` while it is at most 8. Bits
//! at positions `>= n` are always zero; the parity computations depend on it.
//!
//! # Left multiplication
//!
//! Applying a gate `G` to the state is `R <- G·R`, which replaces the preimage
//! of each basis operator `B` by the preimage of `G†·B·G`.
//!
//! # Right multiplication
//!
//! `R <- R·V` for `V = exp(iπ/4·G)` with `G` Hermitian turns each row `ρ` into
//! `V†·ρ·V`, which is `ρ` when `ρ` and `G` commute, and `ρ·(i·G)` when they
//! anticommute. For `V = Z_p` the same argument degenerates to a sign:
//! `Z_p·ρ·Z_p = -ρ` exactly when `ρ` has an x-bit at `p`.
use vstd::prelude::*;
use crate::bits::{bit_word_count, packed_bit, row_bit, row_bits, words_for_bits};
use crate::pauli::{
    assign_bit, identity_op, lemma_shared_is_y_count, lemma_shared_tail, lists_bits, set_bits,
    shared_bit_count, tail_clear, x_op, y_count, z_op, PauliOp, PauliBasis, PauliString, RowPauli,
};

verus! {

broadcast use crate::bits::group_word_bits;

// ---------------------------------------------------------------------------
// Tableaux
// ---------------------------------------------------------------------------
/// The identity tableau: row `2q` is `X_q`, row `2q + 1` is `Z_q`.
pub open spec fn identity_tableau(n: int) -> Seq<PauliOp> {
    Seq::new(
        (2 * n) as nat,
        |r: int|
            if r % 2 == 0 {
                x_op(n, r / 2)
            } else {
                z_op(n, r / 2)
            },
    )
}

/// Applies `f` to the rows of one half (0 for X rows, 1 for Z rows) whose qubit
/// is set in `bits`.
pub open spec fn map_half(
    t: Seq<PauliOp>,
    bits: Seq<bool>,
    half: int,
    f: spec_fn(PauliOp) -> PauliOp,
) -> Seq<PauliOp> {
    Seq::new(
        t.len(),
        |r: int|
            if r % 2 == half && bits[r / 2] {
                f(t[r])
            } else {
                t[r]
            },
    )
}

/// `H` exchanges the two preimages of the qubit.
pub open spec fn tableau_h(t: Seq<PauliOp>, q: int) -> Seq<PauliOp> {
    t.update(2 * q, t[2 * q + 1]).update(2 * q + 1, t[2 * q])
}

/// `x_row <- i^delta · z_row · x_row`: `S` for `delta = 1`, `S†` for `delta = 3`.
pub open spec fn tableau_root_z(t: Seq<PauliOp>, q: int, delta: int) -> Seq<PauliOp> {
    t.update(2 * q, t[2 * q + 1].times(t[2 * q]).shifted(delta))
}

/// `z_row <- i^delta · x_row · z_row`: `√X` for `delta = 1`, `√X†` for `delta = 3`.
pub open spec fn tableau_root_x(t: Seq<PauliOp>, q: int, delta: int) -> Seq<PauliOp> {
    t.update(2 * q + 1, t[2 * q].times(t[2 * q + 1]).shifted(delta))
}

/// Pauli `X` anticommutes with `Z_q` only.
pub open spec fn tableau_x(t: Seq<PauliOp>, q: int) -> Seq<PauliOp> {
    t.update(2 * q + 1, t[2 * q + 1].shifted(2))
}

/// Pauli `Z` anticommutes with `X_q` only.
pub open spec fn tableau_z(t: Seq<PauliOp>, q: int) -> Seq<PauliOp> {
    t.update(2 * q, t[2 * q].shifted(2))
}

/// Pauli `Y` anticommutes with both.
pub open spec fn tableau_y(t: Seq<PauliOp>, q: int) -> Seq<PauliOp> {
    tableau_x(tableau_z(t, q), q)
}

/// CNOT: `x_c <- x_t·x_c`, `z_t <- z_c·z_t`.
pub open spec fn tableau_cx(t: Seq<PauliOp>, control: int, target: int) -> Seq<PauliOp> {
    t.update(2 * control, t[2 * target].times(t[2 * control])).update(
        2 * target + 1,
        t[2 * control + 1].times(t[2 * target + 1]),
    )
}

/// CZ: `x_a <- z_b·x_a`, `x_b <- z_a·x_b`.
pub open spec fn tableau_cz(t: Seq<PauliOp>, a: int, b: int) -> Seq<PauliOp> {
    t.update(2 * a, t[2 * b + 1].times(t[2 * a])).update(2 * b, t[2 * a + 1].times(t[2 * b]))
}

/// SWAP exchanges both preimages of the two qubits.
pub open spec fn tableau_swap(t: Seq<PauliOp>, a: int, b: int) -> Seq<PauliOp> {
    t.update(2 * a, t[2 * b]).update(2 * b, t[2 * a]).update(2 * a + 1, t[2 * b + 1]).update(
        2 * b + 1,
        t[2 * a + 1],
    )
}

/// A Pauli negates the rows it anticommutes with.
pub open spec fn tableau_pauli(t: Seq<PauliOp>, x: Seq<bool>, z: Seq<bool>) -> Seq<PauliOp> {
    let negate = |p: PauliOp| p.shifted(2);
    map_half(map_half(t, x, 1, negate), z, 0, negate)
}

/// `acc` times the rows of one half over the first `k` qubits set in `bits`.
pub open spec fn fold_rows(
    acc: PauliOp,
    t: Seq<PauliOp>,
    bits: Seq<bool>,
    half: int,
    k: int,
) -> PauliOp
    decreases k,
{
    if k <= 0 {
        acc
    } else {
        let front = fold_rows(acc, t, bits, half, k - 1);
        if bits[k - 1] {
            front.times(t[2 * (k - 1) + half])
        } else {
            front
        }
    }
}

/// The product of the X rows selected by `x`, then of the Z rows selected by `z`.
pub open spec fn row_product(t: Seq<PauliOp>, x: Seq<bool>, z: Seq<bool>, n: int) -> PauliOp {
    fold_rows(fold_rows(identity_op(n), t, x, 0, n), t, z, 1, n)
}

/// `R†·P·R` for the Hermitian Pauli `P` with these bits: one `i` per `Y` site on
/// top of the row product.
pub open spec fn preimage_of(t: Seq<PauliOp>, x: Seq<bool>, z: Seq<bool>, n: int) -> PauliOp {
    row_product(t, x, z, n).shifted(y_count(x, z, n))
}

/// `R†·P·R` for an operator with its phase.
pub open spec fn preimage_op(t: Seq<PauliOp>, p: PauliOp, n: int) -> PauliOp {
    row_product(t, p.x, p.z, n).shifted(p.phase)
}

/// The control-conditioned target: rows that anticommute with the control are
/// right-multiplied by the target's preimage, then rows that anticommute with
/// the target are left-multiplied by the control's, both preimages taken
/// against the unmodified tableau.
pub open spec fn tableau_controlled(
    t: Seq<PauliOp>,
    control_x: Seq<bool>,
    control_z: Seq<bool>,
    target_x: Seq<bool>,
    target_z: Seq<bool>,
    n: int,
) -> Seq<PauliOp> {
    let control = preimage_of(t, control_x, control_z, n);
    let target = preimage_of(t, target_x, target_z, n);
    let right = |p: PauliOp| p.times(target);
    let left = |p: PauliOp| control.times(p);
    let t1 = map_half(t, control_x, 1, right);
    let t2 = map_half(t1, control_z, 0, right);
    let t3 = map_half(t2, target_x, 1, left);
    map_half(t3, target_z, 0, left)
}

/// One row under right multiplication by `exp(iπ/4·g)`.
pub open spec fn right_exp_row(p: PauliOp, g: PauliOp) -> PauliOp {
    if p.anticommutes(g) {
        p.times(g).shifted(1)
    } else {
        p
    }
}

/// `R <- R·exp(iπ/4·g)`.
pub open spec fn tableau_right_exp(t: Seq<PauliOp>, g: PauliOp) -> Seq<PauliOp> {
    Seq::new(t.len(), |r: int| right_exp_row(t[r], g))
}

/// `R <- R·Z_pivot`.
pub open spec fn tableau_right_z(t: Seq<PauliOp>, pivot: int) -> Seq<PauliOp> {
    Seq::new(
        t.len(),
        |r: int|
            if t[r].x[pivot] {
                t[r].shifted(2)
            } else {
                t[r]
            },
    )
}

/// The operator with its qubit count changed to `m`: new qubits hold the
/// identity, qubits from `m` on are dropped.
pub open spec fn resized_op(p: PauliOp, m: int) -> PauliOp {
    PauliOp {
        x: Seq::new(m as nat, |i: int| i < p.x.len() && p.x[i]),
        z: Seq::new(m as nat, |i: int| i < p.z.len() && p.z[i]),
        phase: p.phase,
    }
}

/// The tableau on `m` qubits: kept rows are resized, new qubits get their basis
/// pair.
pub open spec fn resized_tableau(t: Seq<PauliOp>, m: int) -> Seq<PauliOp> {
    Seq::new(
        (2 * m) as nat,
        |r: int|
            if r < t.len() {
                resized_op(t[r], m)
            } else {
                identity_tableau(m)[r]
            },
    )
}

/// The bits of the image of `X_q` (from the z-halves) or `Z_q` (from the
/// x-halves): a column of the tableau.
pub open spec fn image_bits(t: Seq<PauliOp>, q: int, of_x: bool, row_half: int, n: int) -> Seq<bool> {
    Seq::new(
        n as nat,
        |j: int|
            if of_x {
                t[2 * j + row_half].z[q]
            } else {
                t[2 * j + row_half].x[q]
            },
    )
}

/// `R·X_q·R†` or `R·Z_q·R†`: the column bits, with the conjugate of the phase
/// that pushing them back through the preimages gives.
pub open spec fn image_of(t: Seq<PauliOp>, q: int, of_x: bool, n: int) -> PauliOp {
    let x = image_bits(t, q, of_x, 1, n);
    let z = image_bits(t, q, of_x, 0, n);
    PauliOp { x, z, phase: (4 - row_product(t, x, z, n).phase) % 4 }
}

/// Positions `support[i]` for the local index `i`: the operator a `k`-qubit row
/// becomes when its local qubits sit at `support` in the tableau `t`.
pub open spec fn remapped_fold(
    acc: PauliOp,
    t: Seq<PauliOp>,
    bits: Seq<bool>,
    support: Seq<usize>,
    half: int,
    k: int,
) -> PauliOp
    decreases k,
{
    if k <= 0 {
        acc
    } else {
        let front = remapped_fold(acc, t, bits, support, half, k - 1);
        if bits[k - 1] {
            front.times(t[2 * support[k - 1] + half])
        } else {
            front
        }
    }
}

/// The preimage of a local row remapped through `support`.
pub open spec fn remapped_preimage(
    t: Seq<PauliOp>,
    local: PauliOp,
    support: Seq<usize>,
    n: int,
) -> PauliOp {
    let k = support.len() as int;
    remapped_fold(
        remapped_fold(identity_op(n), t, local.x, support, 0, k),
        t,
        local.z,
        support,
        1,
        k,
    ).shifted(local.phase)
}

// ---------------------------------------------------------------------------
// Widths
// ---------------------------------------------------------------------------
/// Words a register of `n` qubits occupies.
pub open spec fn logical_words_spec(n: int) -> int {
    if n <= 64 {
        1
    } else {
        words_for_bits(n)
    }
}

/// Words per tableau row half.
pub open spec fn row_words(n: int) -> int {
    let w = logical_words_spec(n);
    if w <= 2 {
        w
    } else if w <= 4 {
        4
    } else if w <= 8 {
        8
    } else {
        w
    }
}

/// Registers whose tableau can be addressed on this machine.
pub open spec fn register_fits(n: int) -> bool {
    2 * n + 512 <= usize::MAX
}

/// `u64` words a register of `n` qubits actually occupies.
pub fn logical_words(n: usize) -> (r: usize)
    ensures
        r == logical_words_spec(n as int),
{
    if n <= 64 {
        1
    } else {
        bit_word_count(n)
    }
}

/// Words per tableau row half: [`logical_words`] rounded up to a power of two
/// while it is at most 8.
pub fn words_for(n: usize) -> (r: usize)
    ensures
        r == row_words(n as int),
{
    let words: usize = logical_words(n);
    if words <= 2 {
        words
    } else if words <= 4 {
        4
    } else if words <= 8 {
        8
    } else {
        words
    }
}

// ---------------------------------------------------------------------------
// The frame
// ---------------------------------------------------------------------------
/// The Clifford frame `R`, stored as the preimages of the Pauli basis.
///
/// Left-multiplying operations (`left_*`) apply a gate to the state
/// (`R <- G·R`); right-multiplying ones (`right_*`) apply an operator already
/// expressed in the frame (`R <- R·V`).
#[derive(Clone, Debug, PartialEq, Eq)]
pub struct Frame {
    pub n: usize,
    /// Words per row half, per [`words_for`].
    pub words: usize,
    /// Row `2q` is `R†·X_q·R`, row `2q + 1` is `R†·Z_q·R`.
    pub rows: Vec<RowPauli>,
}

impl View for Frame {
    type V = Seq<PauliOp>;

    open spec fn view(&self) -> Seq<PauliOp> {
        Seq::new((2 * self.n) as nat, |r: int| self.rows@[r].op(self.n as int))
    }
}

impl Frame {
    /// `2n` rows of the right width, with clear tails and reduced phases.
    pub open spec fn wf(&self) -> bool {
        &&& register_fits(self.n as int)
        &&& self.words == row_words(self.n as int)
        &&& self.rows@.len() == 2 * self.n
        &&& forall|r: int|
            0 <= r < self.rows@.len() ==> (#[trigger] self.rows@[r]).wf(
                self.n as int,
                self.words as int,
            )
    }

    /// The identity frame on `n` qubits.
    pub fn identity(n: usize) -> (r: Self)
        requires
            register_fits(n as int),
        ensures
            r.wf(),
            r.n == n,
            r@ == identity_tableau(n as int),
    {
        let words: usize = words_for(n);
        let mut rows: Vec<RowPauli> = Vec::new();
        let mut q: usize = 0;
        while q < n
            invariant
                q <= n,
                register_fits(n as int),
                words == row_words(n as int),
                rows@.len() == 2 * q,
                forall|r: int|
                    0 <= r < rows@.len() ==> (#[trigger] rows@[r]).wf(n as int, words as int)
                        && rows@[r].op(n as int) == identity_tableau(n as int)[r],
            decreases n - q,
        {
            let (x_row, z_row) = Frame::identity_rows(n, words, q);
            rows.push(x_row);
            rows.push(z_row);
            q += 1;
        }
        let r = Frame { n, words, rows };
        assert(r@ =~= identity_tableau(n as int));
        r
    }

    /// The rows `X_q` and `Z_q`.
    fn identity_rows(n: usize, words: usize, q: usize) -> (r: (RowPauli, RowPauli))
        requires
            q < n,
            words == row_words(n as int),
        ensures
            r.0.wf(n as int, words as int),
            r.1.wf(n as int, words as int),
            r.0.op(n as int) == x_op(n as int, q as int),
            r.1.op(n as int) == z_op(n as int, q as int),
    {
        let mut x_row = RowPauli::identity(words);
        let mut z_row = RowPauli::identity(words);
        assert(x_row.wf(n as int, words as int));
        assert(z_row.wf(n as int, words as int));
        assign_bit(&mut x_row.x, q, true);
        assign_bit(&mut z_row.z, q, true);
        assert(x_row.op(n as int) =~= x_op(n as int, q as int));
        assert(z_row.op(n as int) =~= z_op(n as int, q as int));
        (x_row, z_row)
    }

    /// Current qubit count.
    pub fn num_qubits(&self) -> (r: usize)
        ensures
            r == self.n,
    {
        self.n
    }

    /// Words per row half: the width every mask handed to this frame must have.
    pub fn words(&self) -> (r: usize)
        ensures
            r == self.words,
    {
        self.words
    }

    /// Grows or shrinks to `new_n` qubits. Growth appends identity rows;
    /// shrinking drops qubits whose preimages are their own basis pair.
    pub fn resize(&mut self, new_n: usize)
        requires
            old(self).wf(),
            register_fits(new_n as int),
            forall|q: int| new_n <= q < old(self).n ==> #[trigger] old(self).basis_pair_at(q),
        ensures
            final(self).wf(),
            final(self).n == new_n,
            final(self)@ == resized_tableau(old(self)@, new_n as int),
    {
        if new_n > self.n {
            self.grow(new_n);
        } else if new_n < self.n {
            self.shrink(new_n);
        } else {
            proof {
                assert forall|r: int| 0 <= r < self@.len() implies resized_op(self@[r], new_n as int)
                    == self@[r] by {
                    assert(resized_op(self@[r], new_n as int) =~= self@[r]);
                }
                assert(self@ =~= resized_tableau(self@, new_n as int));
            }
        }
    }

    /// The preimages of qubit `q` are `X_q` and `Z_q`.
    pub open spec fn basis_pair_at(&self, q: int) -> bool {
        self@[2 * q] == x_op(self.n as int, q) && self@[2 * q + 1] == z_op(self.n as int, q)
    }

    /// Appends qubits in the identity.
    pub fn grow(&mut self, new_n: usize)
        requires
            old(self).wf(),
            old(self).n <= new_n,
            register_fits(new_n as int),
        ensures
            final(self).wf(),
            final(self).n == new_n,
            final(self)@ == resized_tableau(old(self)@, new_n as int),
    {
        let new_words: usize = words_for(new_n);
        let live: usize = logical_words(self.n);
        let ghost t0 = self@;
        let ghost rows0 = self.rows@;
        let old_n: usize = self.n;
        let ghost old_words = self.words as int;
        let mut rows: Vec<RowPauli> = Vec::new();
        let mut r: usize = 0;
        while r < self.rows.len()
            invariant
                r <= self.rows@.len(),
                self.rows@ == rows0,
                rows0.len() == 2 * old_n,
                old_n <= new_n,
                register_fits(new_n as int),
                new_words == row_words(new_n as int),
                old_words == row_words(old_n as int),
                live == logical_words_spec(old_n as int),
                forall|k: int|
                    0 <= k < rows0.len() ==> (#[trigger] rows0[k]).wf(old_n as int, old_words),
                rows@.len() == r,
                forall|k: int|
                    0 <= k < r ==> (#[trigger] rows@[k]).wf(new_n as int, new_words as int)
                        && rows@[k].op(new_n as int) == resized_op(
                        rows0[k].op(old_n as int),
                        new_n as int,
                    ),
            decreases self.rows@.len() - r,
        {
            let row: RowPauli = restride(&self.rows[r], new_words, live);
            proof {
                let before = rows0[r as int];
                assert forall|i: int| new_n <= i < 64 * new_words implies !#[trigger] row_bit(row.x@, i)
                    && !row_bit(row.z@, i) by {}
                assert(row.wf(new_n as int, new_words as int));
                assert(row.op(new_n as int) =~= resized_op(before.op(old_n as int), new_n as int));
            }
            rows.push(row);
            r += 1;
        }
        let mut q: usize = old_n;
        while q < new_n
            invariant
                old_n <= q <= new_n,
                register_fits(new_n as int),
                new_words == row_words(new_n as int),
                rows@.len() == 2 * q,
                rows0.len() == 2 * old_n,
                forall|k: int|
                    0 <= k < rows@.len() ==> (#[trigger] rows@[k]).wf(new_n as int, new_words as int),
                forall|k: int|
                    0 <= k < rows0.len() ==> (#[trigger] rows@[k]).op(new_n as int) == resized_op(
                        rows0[k].op(old_n as int),
                        new_n as int,
                    ),
                forall|k: int|
                    rows0.len() <= k < rows@.len() ==> (#[trigger] rows@[k]).op(new_n as int)
                        == identity_tableau(new_n as int)[k],
            decreases new_n - q,
        {
            let (x_row, z_row) = Frame::identity_rows(new_n, new_words, q);
            rows.push(x_row);
            rows.push(z_row);
            q += 1;
        }
        self.rows = rows;
        self.words = new_words;
        self.n = new_n;
        assert(self@ =~= resized_tableau(t0, new_n as int));
    }

    /// Drops the qubits from `new_n` on, whose preimages must be their own basis
    /// pair.
    pub fn shrink(&mut self, new_n: usize)
        requires
            old(self).wf(),
            new_n <= old(self).n,
            forall|q: int| new_n <= q < old(self).n ==> #[trigger] old(self).basis_pair_at(q),
        ensures
            final(self).wf(),
            final(self).n == new_n,
            final(self)@ == resized_tableau(old(self)@, new_n as int),
    {
        let new_words: usize = words_for(new_n);
        let live: usize = logical_words(new_n);
        let ghost t0 = self@;
        let ghost rows0 = self.rows@;
        let old_n: usize = self.n;
        let ghost old_words = self.words as int;
        let mut rows: Vec<RowPauli> = Vec::new();
        let mut r: usize = 0;
        while r < 2 * new_n
            invariant
                r <= 2 * new_n,
                new_n <= old_n,
                self.rows@ == rows0,
                rows0.len() == 2 * old_n,
                register_fits(old_n as int),
                new_words == row_words(new_n as int),
                old_words == row_words(old_n as int),
                live == logical_words_spec(new_n as int),
                forall|k: int|
                    0 <= k < rows0.len() ==> (#[trigger] rows0[k]).wf(old_n as int, old_words),
                rows@.len() == r,
                forall|k: int|
                    0 <= k < r ==> (#[trigger] rows@[k]).wf(new_n as int, new_words as int)
                        && rows@[k].op(new_n as int) == resized_op(
                        rows0[k].op(old_n as int),
                        new_n as int,
                    ),
            decreases 2 * new_n - r,
        {
            let mut row: RowPauli = restride(&self.rows[r], new_words, live);
            mask_tail(&mut row, new_n);
            proof {
                let before = rows0[r as int];
                assert(row.wf(new_n as int, new_words as int));
                assert(row.op(new_n as int) =~= resized_op(before.op(old_n as int), new_n as int));
            }
            rows.push(row);
            r += 1;
        }
        self.rows = rows;
        self.words = new_words;
        self.n = new_n;
        assert(self@ =~= resized_tableau(t0, new_n as int));
    }

    /// Whether qubit's preimages are the untouched basis pair `X_q`, `Z_q`.
    pub fn is_basis_pair(&self, q: usize) -> (r: bool)
        requires
            self.wf(),
            q < self.n,
        ensures
            r == self.basis_pair_at(q as int),
    {
        let x_row: &RowPauli = &self.rows[2 * q];
        let z_row: &RowPauli = &self.rows[2 * q + 1];
        let ghost n = self.n as int;
        if x_row.phase != 0 || z_row.phase != 0 {
            return false;
        }
        let mut i: usize = 0;
        while i < self.n
            invariant
                i <= self.n,
                n == self.n,
                q < self.n,
                self.wf(),
                *x_row == self.rows@[2 * q],
                *z_row == self.rows@[2 * q + 1],
                x_row.phase == 0,
                z_row.phase == 0,
                forall|j: int| 0 <= j < i ==> #[trigger] row_bit(x_row.x@, j) == (j == q),
                forall|j: int| 0 <= j < i ==> !#[trigger] row_bit(x_row.z@, j),
                forall|j: int| 0 <= j < i ==> #[trigger] row_bit(z_row.z@, j) == (j == q),
                forall|j: int| 0 <= j < i ==> !#[trigger] row_bit(z_row.x@, j),
            decreases self.n - i,
        {
            if packed_bit(x_row.x.as_slice(), i) != (i == q) || packed_bit(x_row.z.as_slice(), i)
                || packed_bit(z_row.z.as_slice(), i) != (i == q) || packed_bit(
                z_row.x.as_slice(),
                i,
            ) {
                proof {
                    assert(self@[2 * q].x[i as int] == row_bit(x_row.x@, i as int));
                    assert(self@[2 * q].z[i as int] == row_bit(x_row.z@, i as int));
                    assert(self@[2 * q + 1].x[i as int] == row_bit(z_row.x@, i as int));
                    assert(self@[2 * q + 1].z[i as int] == row_bit(z_row.z@, i as int));
                    assert(x_op(n, q as int).x[i as int] == (i == q));
                    assert(!x_op(n, q as int).z[i as int]);
                    assert(z_op(n, q as int).z[i as int] == (i == q));
                    assert(!z_op(n, q as int).x[i as int]);
                }
                return false;
            }
            i += 1;
        }
        assert(self@[2 * q] =~= x_op(n, q as int));
        assert(self@[2 * q + 1] =~= z_op(n, q as int));
        true
    }

    // -----------------------------------------------------------------------
    // Row kernels
    // -----------------------------------------------------------------------
    /// `dst <- i^delta · src · dst` for two stored rows.
    fn left_mul_row_by_row(&mut self, dst: usize, src: usize, delta: u8)
        requires
            old(self).wf(),
            dst < 2 * old(self).n,
            src < 2 * old(self).n,
            dst != src,
            delta < 4,
        ensures
            final(self).wf(),
            final(self).n == old(self).n,
            final(self)@ == old(self)@.update(
                dst as int,
                old(self)@[src as int].times(old(self)@[dst as int]).shifted(delta as int),
            ),
    {
        let mut row = RowPauli { x: Vec::new(), z: Vec::new(), phase: 0 };
        let ghost n = self.n as int;
        core::mem::swap(&mut row, &mut self.rows[dst]);
        assert(self.rows@[src as int].wf(n, self.words as int));
        row.mul_left(&self.rows[src]);
        row.phase = (row.phase + delta) % 4;
        core::mem::swap(&mut row, &mut self.rows[dst]);
        assert(self.rows@[dst as int].op(n) =~= old(self)@[src as int].times(
            old(self)@[dst as int],
        ).shifted(delta as int));
        assert(self@ =~= old(self)@.update(
            dst as int,
            old(self)@[src as int].times(old(self)@[dst as int]).shifted(delta as int),
        ));
    }

    /// Exchanges two stored rows.
    fn swap_rows(&mut self, a: usize, b: usize)
        requires
            old(self).wf(),
            a < 2 * old(self).n,
            b < 2 * old(self).n,
            a != b,
        ensures
            final(self).wf(),
            final(self).n == old(self).n,
            final(self)@ == old(self)@.update(a as int, old(self)@[b as int]).update(
                b as int,
                old(self)@[a as int],
            ),
    {
        let mut row = RowPauli { x: Vec::new(), z: Vec::new(), phase: 0 };
        core::mem::swap(&mut row, &mut self.rows[a]);
        core::mem::swap(&mut row, &mut self.rows[b]);
        core::mem::swap(&mut row, &mut self.rows[a]);
        assert(self@ =~= old(self)@.update(a as int, old(self)@[b as int]).update(
            b as int,
            old(self)@[a as int],
        ));
    }

    /// Negates one stored row.
    fn negate_row(&mut self, row: usize)
        requires
            old(self).wf(),
            row < 2 * old(self).n,
        ensures
            final(self).wf(),
            final(self).n == old(self).n,
            final(self)@ == old(self)@.update(row as int, old(self)@[row as int].shifted(2)),
    {
        self.rows[row].phase = (self.rows[row].phase + 2) % 4;
        assert(self.rows@[row as int].op(self.n as int) =~= old(self)@[row as int].shifted(2));
        assert(self@ =~= old(self)@.update(row as int, old(self)@[row as int].shifted(2)));
    }

    // -----------------------------------------------------------------------
    // Left multiplication: R <- G·R
    // -----------------------------------------------------------------------
    /// Hadamard: swap the two preimages of the qubit.
    pub fn left_h(&mut self, qubit: usize)
        requires
            old(self).wf(),
            qubit < old(self).n,
        ensures
            final(self).wf(),
            final(self).n == old(self).n,
            final(self)@ == tableau_h(old(self)@, qubit as int),
    {
        self.swap_rows(2 * qubit, 2 * qubit + 1);
    }

    /// `S = √Z`.
    pub fn left_s(&mut self, qubit: usize)
        requires
            old(self).wf(),
            qubit < old(self).n,
        ensures
            final(self).wf(),
            final(self).n == old(self).n,
            final(self)@ == tableau_root_z(old(self)@, qubit as int, 1),
    {
        self.left_mul_row_by_row(2 * qubit, 2 * qubit + 1, 1);
    }

    /// `S† = √Z†`.
    pub fn left_s_dag(&mut self, qubit: usize)
        requires
            old(self).wf(),
            qubit < old(self).n,
        ensures
            final(self).wf(),
            final(self).n == old(self).n,
            final(self)@ == tableau_root_z(old(self)@, qubit as int, 3),
    {
        self.left_mul_row_by_row(2 * qubit, 2 * qubit + 1, 3);
    }

    /// `√X`.
    pub fn left_sqrt_x(&mut self, qubit: usize)
        requires
            old(self).wf(),
            qubit < old(self).n,
        ensures
            final(self).wf(),
            final(self).n == old(self).n,
            final(self)@ == tableau_root_x(old(self)@, qubit as int, 1),
    {
        self.left_mul_row_by_row(2 * qubit + 1, 2 * qubit, 1);
    }

    /// `√X†`.
    pub fn left_sqrt_x_dag(&mut self, qubit: usize)
        requires
            old(self).wf(),
            qubit < old(self).n,
        ensures
            final(self).wf(),
            final(self).n == old(self).n,
            final(self)@ == tableau_root_x(old(self)@, qubit as int, 3),
    {
        self.left_mul_row_by_row(2 * qubit + 1, 2 * qubit, 3);
    }

    /// `√Y = Z` then `H`.
    pub fn left_sqrt_y(&mut self, qubit: usize)
        requires
            old(self).wf(),
            qubit < old(self).n,
        ensures
            final(self).wf(),
            final(self).n == old(self).n,
            final(self)@ == tableau_h(tableau_z(old(self)@, qubit as int), qubit as int),
    {
        self.left_z(qubit);
        self.left_h(qubit);
    }

    /// `√Y† = H` then `Z`.
    pub fn left_sqrt_y_dag(&mut self, qubit: usize)
        requires
            old(self).wf(),
            qubit < old(self).n,
        ensures
            final(self).wf(),
            final(self).n == old(self).n,
            final(self)@ == tableau_z(tableau_h(old(self)@, qubit as int), qubit as int),
    {
        self.left_h(qubit);
        self.left_z(qubit);
    }

    /// Pauli `X`: anticommutes with `Z_q` only.
    pub fn left_x(&mut self, qubit: usize)
        requires
            old(self).wf(),
            qubit < old(self).n,
        ensures
            final(self).wf(),
            final(self).n == old(self).n,
            final(self)@ == tableau_x(old(self)@, qubit as int),
    {
        self.negate_row(2 * qubit + 1);
    }

    /// Pauli `Y`.
    pub fn left_y(&mut self, qubit: usize)
        requires
            old(self).wf(),
            qubit < old(self).n,
        ensures
            final(self).wf(),
            final(self).n == old(self).n,
            final(self)@ == tableau_y(old(self)@, qubit as int),
    {
        self.negate_row(2 * qubit);
        self.negate_row(2 * qubit + 1);
    }

    /// Pauli `Z`: anticommutes with `X_q` only.
    pub fn left_z(&mut self, qubit: usize)
        requires
            old(self).wf(),
            qubit < old(self).n,
        ensures
            final(self).wf(),
            final(self).n == old(self).n,
            final(self)@ == tableau_z(old(self)@, qubit as int),
    {
        self.negate_row(2 * qubit);
    }

    /// CNOT: `x_c <- x_t·x_c`, `z_t <- z_c·z_t`.
    pub fn left_cx(&mut self, control: usize, target: usize)
        requires
            old(self).wf(),
            control < old(self).n,
            target < old(self).n,
            control != target,
        ensures
            final(self).wf(),
            final(self).n == old(self).n,
            final(self)@ == tableau_cx(old(self)@, control as int, target as int),
    {
        self.left_mul_row_by_row(2 * control, 2 * target, 0);
        self.left_mul_row_by_row(2 * target + 1, 2 * control + 1, 0);
        assert(self@ =~= tableau_cx(old(self)@, control as int, target as int));
    }

    /// CZ: `x_a <- z_b·x_a`, `x_b <- z_a·x_b`.
    pub fn left_cz(&mut self, first: usize, second: usize)
        requires
            old(self).wf(),
            first < old(self).n,
            second < old(self).n,
            first != second,
        ensures
            final(self).wf(),
            final(self).n == old(self).n,
            final(self)@ == tableau_cz(old(self)@, first as int, second as int),
    {
        self.left_mul_row_by_row(2 * first, 2 * second + 1, 0);
        self.left_mul_row_by_row(2 * second, 2 * first + 1, 0);
        assert(self@ =~= tableau_cz(old(self)@, first as int, second as int));
    }

    /// SWAP: exchange both preimages of the two qubits.
    pub fn left_swap(&mut self, first: usize, second: usize)
        requires
            old(self).wf(),
            first < old(self).n,
            second < old(self).n,
        ensures
            final(self).wf(),
            final(self).n == old(self).n,
            final(self)@ == tableau_swap(old(self)@, first as int, second as int),
    {
        if first == second {
            assert(self@ =~= tableau_swap(old(self)@, first as int, second as int));
            return;
        }
        self.swap_rows(2 * first, 2 * second);
        self.swap_rows(2 * first + 1, 2 * second + 1);
        assert(self@ =~= tableau_swap(old(self)@, first as int, second as int));
    }
}

/// The qubits below `limit` of a mask, when positions `limit ..` of the listed
/// bits are still to come.
spec fn listed_limit(list: Seq<usize>, j: int) -> int {
    if j <= 0 {
        0
    } else {
        list[j - 1] + 1
    }
}

proof fn lemma_listed_gap(list: Seq<usize>, mask: Seq<u64>, j: int, i: int)
    requires
        lists_bits(list, mask),
        0 <= j <= list.len(),
        listed_limit(list, j) <= i,
        j < list.len() ==> i < list[j],
    ensures
        !row_bit(mask, i),
{
    if row_bit(mask, i) {
        let m = choose|m: int| 0 <= m < list.len() && list[m] == i;
        if m < j {
            if m < j - 1 {
                assert(list[m] < list[j - 1]);
            }
        } else if j < m {
            assert(list[j] < list[m]);
        }
    }
}

/// Rows with no selected qubit in between leave the fold unchanged.
pub proof fn lemma_fold_skip(acc: PauliOp, t: Seq<PauliOp>, bits: Seq<bool>, half: int, a: int, b: int)
    requires
        0 <= a <= b,
        forall|i: int| a <= i < b ==> !#[trigger] bits[i],
    ensures
        fold_rows(acc, t, bits, half, b) == fold_rows(acc, t, bits, half, a),
    decreases b - a,
{
    if a < b {
        lemma_fold_skip(acc, t, bits, half, a, b - 1);
        assert(!bits[b - 1]);
    }
}

/// The limit up to which a partly processed half has been mapped.
spec fn mapped_below(
    t0: Seq<PauliOp>,
    t: Seq<PauliOp>,
    bits: Seq<bool>,
    half: int,
    f: spec_fn(PauliOp) -> PauliOp,
    limit: int,
) -> bool {
    &&& t.len() == t0.len()
    &&& forall|r: int|
        0 <= r < t0.len() ==> #[trigger] t[r] == if r % 2 == half && bits[r / 2] && r / 2 < limit {
            f(t0[r])
        } else {
            t0[r]
        }
}

impl Frame {
    /// Negates the rows of one half whose qubit is set in `mask`.
    fn negate_half(&mut self, mask: &[u64], half: usize)
        requires
            old(self).wf(),
            half < 2,
            64 * mask@.len() <= usize::MAX,
            tail_clear(mask@, old(self).n as int),
        ensures
            final(self).wf(),
            final(self).n == old(self).n,
            final(self)@ == map_half(
                old(self)@,
                row_bits(mask@, old(self).n as int),
                half as int,
                |p: PauliOp| p.shifted(2),
            ),
    {
        let list: Vec<usize> = set_bits(mask);
        let ghost t0 = self@;
        let ghost n = self.n as int;
        let ghost bits = row_bits(mask@, n);
        let ghost f = |p: PauliOp| p.shifted(2);
        let mut j: usize = 0;
        while j < list.len()
            invariant
                j <= list@.len(),
                half < 2,
                self.wf(),
                self.n == n,
                n == old(self).n,
                tail_clear(mask@, n),
                lists_bits(list@, mask@),
                bits == row_bits(mask@, n),
                f == (|p: PauliOp| p.shifted(2)),
                t0.len() == 2 * n,
                mapped_below(t0, self@, bits, half as int, f, listed_limit(list@, j as int)),
            decreases list@.len() - j,
        {
            let q: usize = list[j];
            assert(row_bit(mask@, q as int));
            let ghost before = self@;
            self.negate_row(2 * q + half);
            proof {
                assert forall|r: int| 0 <= r < t0.len() implies #[trigger] self@[r] == if r % 2 == half
                    && bits[r / 2] && r / 2 < q + 1 {
                    f(t0[r])
                } else {
                    t0[r]
                } by {
                    assert(before[r] == if r % 2 == half && bits[r / 2] && r / 2 < listed_limit(
                        list@,
                        j as int,
                    ) {
                        f(t0[r])
                    } else {
                        t0[r]
                    });
                    if r / 2 != q && listed_limit(list@, j as int) <= r / 2 < q {
                        lemma_listed_gap(list@, mask@, j as int, r / 2);
                    }
                    if j > 0 {
                        assert(list@[j - 1] < list@[j as int]);
                    }
                }
            }
            j += 1;
        }
        proof {
            assert forall|r: int| 0 <= r < t0.len() implies #[trigger] self@[r] == map_half(
                t0,
                bits,
                half as int,
                f,
            )[r] by {
                if listed_limit(list@, j as int) <= r / 2 {
                    lemma_listed_gap(list@, mask@, j as int, r / 2);
                }
            }
            assert(self@ =~= map_half(t0, bits, half as int, f));
        }
    }

    /// Multiplies the rows of one half whose qubit is set in `mask` by `src`,
    /// from the right or from the left.
    fn mul_half(&mut self, mask: &[u64], half: usize, src: &RowPauli, from_left: bool)
        requires
            old(self).wf(),
            half < 2,
            64 * mask@.len() <= usize::MAX,
            tail_clear(mask@, old(self).n as int),
            src.wf(old(self).n as int, old(self).words as int),
        ensures
            final(self).wf(),
            final(self).n == old(self).n,
            !from_left ==> final(self)@ == map_half(
                old(self)@,
                row_bits(mask@, old(self).n as int),
                half as int,
                |p: PauliOp| p.times(src.op(old(self).n as int)),
            ),
            from_left ==> final(self)@ == map_half(
                old(self)@,
                row_bits(mask@, old(self).n as int),
                half as int,
                |p: PauliOp| src.op(old(self).n as int).times(p),
            ),
    {
        let list: Vec<usize> = set_bits(mask);
        let ghost t0 = self@;
        let ghost n = self.n as int;
        let ghost bits = row_bits(mask@, n);
        let ghost s = src.op(n);
        let ghost right = |p: PauliOp| p.times(s);
        let ghost left = |p: PauliOp| s.times(p);
        let ghost f = if from_left {
            left
        } else {
            right
        };
        let mut j: usize = 0;
        while j < list.len()
            invariant
                j <= list@.len(),
                half < 2,
                self.wf(),
                self.n == n,
                n == old(self).n,
                src.wf(n, self.words as int),
                s == src.op(n),
                tail_clear(mask@, n),
                lists_bits(list@, mask@),
                bits == row_bits(mask@, n),
                forall|p: PauliOp| #[trigger] f(p) == if from_left {
                    s.times(p)
                } else {
                    p.times(s)
                },
                t0.len() == 2 * n,
                mapped_below(t0, self@, bits, half as int, f, listed_limit(list@, j as int)),
            decreases list@.len() - j,
        {
            let q: usize = list[j];
            assert(row_bit(mask@, q as int));
            let ghost before = self@;
            let ghost rows_before = self.rows@;
            let row: usize = 2 * q + half;
            assert(self.rows@[row as int].wf(n, self.words as int));
            if from_left {
                self.rows[row].mul_left(src);
            } else {
                self.rows[row].mul_right(src);
            }
            proof {
                assert(self@[row as int] == f(before[row as int]));
                assert forall|r: int| 0 <= r < t0.len() && r != row implies #[trigger] self@[r]
                    == before[r] by {
                    assert(self.rows@[r] == rows_before[r]);
                }
                assert forall|r: int| 0 <= r < t0.len() implies #[trigger] self@[r] == if r % 2 == half
                    && bits[r / 2] && r / 2 < q + 1 {
                    f(t0[r])
                } else {
                    t0[r]
                } by {
                    assert(before[r] == if r % 2 == half && bits[r / 2] && r / 2 < listed_limit(
                        list@,
                        j as int,
                    ) {
                        f(t0[r])
                    } else {
                        t0[r]
                    });
                    if r / 2 != q && listed_limit(list@, j as int) <= r / 2 < q {
                        lemma_listed_gap(list@, mask@, j as int, r / 2);
                    }
                    if j > 0 {
                        assert(list@[j - 1] < list@[j as int]);
                    }
                }
            }
            j += 1;
        }
        proof {
            assert forall|r: int| 0 <= r < t0.len() implies #[trigger] self@[r] == map_half(
                t0,
                bits,
                half as int,
                f,
            )[r] by {
                if listed_limit(list@, j as int) <= r / 2 {
                    lemma_listed_gap(list@, mask@, j as int, r / 2);
                }
            }
            assert(self@ =~= map_half(t0, bits, half as int, f));
        }
    }

    /// `acc <- acc ·` the rows of one half whose qubit is set in `mask`.
    fn accumulate(&self, mask: &[u64], half: usize, acc: &mut RowPauli)
        requires
            self.wf(),
            half < 2,
            64 * mask@.len() <= usize::MAX,
            tail_clear(mask@, self.n as int),
            old(acc).wf(self.n as int, self.words as int),
        ensures
            final(acc).wf(self.n as int, self.words as int),
            final(acc).op(self.n as int) == fold_rows(
                old(acc).op(self.n as int),
                self@,
                row_bits(mask@, self.n as int),
                half as int,
                self.n as int,
            ),
    {
        let list: Vec<usize> = set_bits(mask);
        let ghost n = self.n as int;
        let ghost t = self@;
        let ghost bits = row_bits(mask@, n);
        let ghost acc0 = acc.op(n);
        let mut j: usize = 0;
        while j < list.len()
            invariant
                j <= list@.len(),
                half < 2,
                self.wf(),
                self.n == n,
                t == self@,
                tail_clear(mask@, n),
                lists_bits(list@, mask@),
                bits == row_bits(mask@, n),
                acc.wf(n, self.words as int),
                listed_limit(list@, j as int) <= n,
                acc.op(n) == fold_rows(acc0, t, bits, half as int, listed_limit(list@, j as int)),
            decreases list@.len() - j,
        {
            let q: usize = list[j];
            assert(row_bit(mask@, q as int));
            let row: usize = 2 * q + half;
            assert(self.rows@[row as int].wf(n, self.words as int));
            acc.mul_right(&self.rows[row]);
            proof {
                if j > 0 {
                    assert(list@[j - 1] < list@[j as int]);
                }
                assert forall|i: int| listed_limit(list@, j as int) <= i < q implies !#[trigger] bits[i] by {
                    lemma_listed_gap(list@, mask@, j as int, i);
                }
                lemma_fold_skip(acc0, t, bits, half as int, listed_limit(list@, j as int), q as int);
                assert(bits[q as int]);
                assert(t[2 * q + half] == self.rows@[row as int].op(n));
            }
            j += 1;
        }
        proof {
            assert forall|i: int| listed_limit(list@, j as int) <= i < n implies !#[trigger] bits[i] by {
                lemma_listed_gap(list@, mask@, j as int, i);
            }
            lemma_fold_skip(acc0, t, bits, half as int, listed_limit(list@, j as int), n);
        }
    }

    /// Applies a Pauli to the state (`R <- P·R`). Conjugation is blind to the
    /// operand's global phase.
    pub fn left_pauli(&mut self, pauli: &PauliString)
        requires
            old(self).wf(),
            pauli.wf(),
            tail_clear(pauli.x@, old(self).n as int),
            tail_clear(pauli.z@, old(self).n as int),
        ensures
            final(self).wf(),
            final(self).n == old(self).n,
            final(self)@ == tableau_pauli(
                old(self)@,
                pauli.op_on(old(self).n as int).x,
                pauli.op_on(old(self).n as int).z,
            ),
    {
        self.negate_half(pauli.x_words(), 1);
        self.negate_half(pauli.z_words(), 0);
    }

    /// Decomposes `pauli` in the frame: `R†·P·R = i^k · X^a · Z^b`. The operand
    /// contributes one `i` per `Y` site; its own phase exponent is ignored.
    pub fn preimage_row(&self, pauli: &PauliString) -> (r: RowPauli)
        requires
            self.wf(),
            pauli.wf(),
            tail_clear(pauli.x@, self.n as int),
            tail_clear(pauli.z@, self.n as int),
        ensures
            r.wf(self.n as int, self.words as int),
            r.op(self.n as int) == preimage_of(
                self@,
                pauli.op_on(self.n as int).x,
                pauli.op_on(self.n as int).z,
                self.n as int,
            ),
    {
        let ghost n = self.n as int;
        let mut out = RowPauli::identity(self.words);
        assert(out.wf(n, self.words as int));
        self.accumulate(pauli.x_words(), 0, &mut out);
        self.accumulate(pauli.z_words(), 1, &mut out);
        let y: u8 = shared_bit_count(pauli.x_words(), pauli.z_words());
        let ghost product = out.op(n);
        out.phase = (out.phase + y) % 4;
        proof {
            let all = 64 * pauli.x@.len() as int;
            let low = if n < all {
                n
            } else {
                all
            };
            lemma_shared_tail(pauli.x@, pauli.z@, low, all);
            lemma_shared_tail(pauli.x@, pauli.z@, low, n);
            lemma_shared_is_y_count(pauli.x@, pauli.z@, n, n);
            assert(out.op(n) =~= product.shifted(
                y_count(pauli.op_on(n).x, pauli.op_on(n).z, n),
            ));
        }
        out
    }

    /// `R†·P·R` for the operator `P` with its own phase.
    pub fn preimage(&self, pauli: &PauliString) -> (r: RowPauli)
        requires
            self.wf(),
            pauli.wf(),
            tail_clear(pauli.x@, self.n as int),
            tail_clear(pauli.z@, self.n as int),
        ensures
            r.wf(self.n as int, self.words as int),
            r.op(self.n as int) == preimage_op(self@, pauli.op_on(self.n as int), self.n as int),
    {
        let ghost n = self.n as int;
        let mut out = RowPauli::identity(self.words);
        assert(out.wf(n, self.words as int));
        self.accumulate(pauli.x_words(), 0, &mut out);
        self.accumulate(pauli.z_words(), 1, &mut out);
        let ghost product = out.op(n);
        out.phase = (out.phase + pauli.phase) % 4;
        assert(out.op(n) =~= product.shifted(pauli.phase as int));
        out
    }

    /// The preimage of a single-qubit basis axis: a stored row, or for `Y` the
    /// product of the two with one more factor of `i`.
    pub fn preimage_basis_row(&self, axis: PauliBasis, qubit: usize) -> (r: RowPauli)
        requires
            self.wf(),
            qubit < self.n,
        ensures
            r.wf(self.n as int, self.words as int),
            r.op(self.n as int) == match axis {
                PauliBasis::X => self@[2 * qubit],
                PauliBasis::Z => self@[2 * qubit + 1],
                PauliBasis::Y => self@[2 * qubit].times(self@[2 * qubit + 1]).shifted(1),
            },
    {
        let ghost n = self.n as int;
        let row: usize = if axis == PauliBasis::Z {
            2 * qubit + 1
        } else {
            2 * qubit
        };
        let mut out: RowPauli = restride(&self.rows[row], self.words, self.words);
        assert(self.rows@[row as int].wf(n, self.words as int));
        assert(out.wf(n, self.words as int));
        assert(out.op(n) =~= self@[row as int]);
        if axis == PauliBasis::Y {
            assert(self.rows@[2 * qubit + 1].wf(n, self.words as int));
            out.mul_right(&self.rows[2 * qubit + 1]);
            let ghost product = out.op(n);
            out.phase = (out.phase + 1) % 4;
            assert(out.op(n) =~= product.shifted(1));
        }
        out
    }

    /// Applies `control`-conditioned `target`, both Paulis. Both preimages are
    /// taken against the unmodified frame, and the right-multiplications by the
    /// target preimage all happen before the left-multiplications by the control
    /// preimage.
    pub fn left_controlled_pauli(&mut self, control: &PauliString, target: &PauliString)
        requires
            old(self).wf(),
            control.wf(),
            target.wf(),
            tail_clear(control.x@, old(self).n as int),
            tail_clear(control.z@, old(self).n as int),
            tail_clear(target.x@, old(self).n as int),
            tail_clear(target.z@, old(self).n as int),
        ensures
            final(self).wf(),
            final(self).n == old(self).n,
            final(self)@ == tableau_controlled(
                old(self)@,
                control.op_on(old(self).n as int).x,
                control.op_on(old(self).n as int).z,
                target.op_on(old(self).n as int).x,
                target.op_on(old(self).n as int).z,
                old(self).n as int,
            ),
    {
        let target_row: RowPauli = self.preimage_row(target);
        let control_row: RowPauli = self.preimage_row(control);
        self.mul_half(control.x_words(), 1, &target_row, false);
        self.mul_half(control.z_words(), 0, &target_row, false);
        self.mul_half(target.x_words(), 1, &control_row, true);
        self.mul_half(target.z_words(), 0, &control_row, true);
    }

    // -----------------------------------------------------------------------
    // Right multiplication: R <- R·V
    // -----------------------------------------------------------------------
    /// `R <- R · exp(iπ/4·G)` for the Hermitian Pauli `G` already expressed in
    /// the frame. Rows commuting with `G` are untouched; the rest become
    /// `ρ·(i·G)`.
    pub fn right_pauli_exp(&mut self, g: &RowPauli)
        requires
            old(self).wf(),
            g.wf(old(self).n as int, old(self).words as int),
        ensures
            final(self).wf(),
            final(self).n == old(self).n,
            final(self)@ == tableau_right_exp(old(self)@, g.op(old(self).n as int)),
    {
        let ghost t0 = self@;
        let ghost n = self.n as int;
        let ghost words = self.words as int;
        let ghost gop = g.op(n);
        let mut r: usize = 0;
        while r < self.rows.len()
            invariant
                r <= self.rows@.len(),
                self.wf(),
                self.n == n,
                n == old(self).n,
                self.words == words,
                g.wf(n, words),
                gop == g.op(n),
                t0.len() == 2 * n,
                forall|k: int| 0 <= k < r ==> #[trigger] self@[k] == right_exp_row(t0[k], gop),
                forall|k: int| r <= k < 2 * n ==> #[trigger] self@[k] == t0[k],
            decreases self.rows@.len() - r,
        {
            let ghost before = self@;
            let ghost rows_before = self.rows@;
            assert(self.rows@[r as int].wf(n, words));
            let row: &RowPauli = &self.rows[r];
            let cross: bool = crate::pauli::dot_parity(row.z.as_slice(), g.x.as_slice());
            let other: bool = crate::pauli::dot_parity(row.x.as_slice(), g.z.as_slice());
            proof {
                crate::pauli::lemma_words_dot(row.z@, g.x@, n);
                crate::pauli::lemma_words_dot(row.x@, g.z@, n);
                assert(before[r as int] == row.op(n));
            }
            if cross != other {
                self.rows[r].mul_right(g);
                self.rows[r].phase = (self.rows[r].phase + 1) % 4;
                proof {
                    assert(self@[r as int] =~= before[r as int].times(gop).shifted(1));
                    assert forall|k: int| 0 <= k < 2 * n && k != r implies #[trigger] self@[k]
                        == before[k] by {
                        assert(self.rows@[k] == rows_before[k]);
                    }
                }
            }
            r += 1;
        }
        assert(self@ =~= tableau_right_exp(t0, gop));
    }

    /// `R <- R · Z_pivot`: negate every row that anticommutes with `Z_pivot`.
    pub fn right_pauli_z(&mut self, pivot: usize)
        requires
            old(self).wf(),
            pivot < old(self).n,
        ensures
            final(self).wf(),
            final(self).n == old(self).n,
            final(self)@ == tableau_right_z(old(self)@, pivot as int),
    {
        let ghost t0 = self@;
        let ghost n = self.n as int;
        let mut r: usize = 0;
        while r < self.rows.len()
            invariant
                r <= self.rows@.len(),
                self.wf(),
                self.n == n,
                n == old(self).n,
                pivot < n,
                t0.len() == 2 * n,
                forall|k: int| 0 <= k < r ==> #[trigger] self@[k] == tableau_right_z(t0, pivot as int)[k],
                forall|k: int| r <= k < 2 * n ==> #[trigger] self@[k] == t0[k],
            decreases self.rows@.len() - r,
        {
            assert(self.rows@[r as int].wf(n, self.words as int));
            assert(self@[r as int] == t0[r as int]);
            if packed_bit(self.rows[r].x.as_slice(), pivot) {
                self.negate_row(r);
            }
            r += 1;
        }
        assert(self@ =~= tableau_right_z(t0, pivot as int));
    }

    // -----------------------------------------------------------------------
    // Whole-row reads and writes
    // -----------------------------------------------------------------------
    /// `R†·X_qubit·R`, in as many words as the register occupies.
    pub fn preimage_x(&self, qubit: usize) -> (r: RowPauli)
        requires
            self.wf(),
            qubit < self.n,
        ensures
            r.wf(self.n as int, logical_words_spec(self.n as int)),
            r.op(self.n as int) == self@[2 * qubit],
    {
        self.dense_row(2 * qubit)
    }

    /// `R†·Z_qubit·R`, in as many words as the register occupies.
    pub fn preimage_z(&self, qubit: usize) -> (r: RowPauli)
        requires
            self.wf(),
            qubit < self.n,
        ensures
            r.wf(self.n as int, logical_words_spec(self.n as int)),
            r.op(self.n as int) == self@[2 * qubit + 1],
    {
        self.dense_row(2 * qubit + 1)
    }

    fn dense_row(&self, row: usize) -> (r: RowPauli)
        requires
            self.wf(),
            row < 2 * self.n,
        ensures
            r.wf(self.n as int, logical_words_spec(self.n as int)),
            r.op(self.n as int) == self@[row as int],
    {
        let live: usize = logical_words(self.n);
        assert(self.rows@[row as int].wf(self.n as int, self.words as int));
        let r: RowPauli = restride(&self.rows[row], live, live);
        assert(r.op(self.n as int) =~= self@[row as int]);
        r
    }

    /// Overwrites a stored row.
    pub fn assign_row(&mut self, row: usize, src: &RowPauli)
        requires
            old(self).wf(),
            row < 2 * old(self).n,
            src.wf(old(self).n as int, logical_words_spec(old(self).n as int)),
        ensures
            final(self).wf(),
            final(self).n == old(self).n,
            final(self)@ == old(self)@.update(row as int, src.op(old(self).n as int)),
    {
        let ghost n = self.n as int;
        let live: usize = logical_words(self.n);
        let fresh: RowPauli = restride(src, self.words, live);
        assert(fresh.wf(n, self.words as int));
        assert(fresh.op(n) =~= src.op(n));
        self.rows.set(row, fresh);
        assert(self@ =~= old(self)@.update(row as int, src.op(n)));
    }

    /// `R·X_qubit·R†`, the destabilizer `D_qubit`. The image bits are a column
    /// of the tableau, and the phase is recovered by pushing those bits back
    /// through the preimages.
    pub fn image_x(&self, qubit: usize) -> (r: RowPauli)
        requires
            self.wf(),
            qubit < self.n,
        ensures
            r.wf(self.n as int, logical_words_spec(self.n as int)),
            r.op(self.n as int) == image_of(self@, qubit as int, true, self.n as int),
    {
        self.image(qubit, true)
    }

    /// `R·Z_qubit·R†`, the stabilizer `S_qubit`.
    pub fn image_z(&self, qubit: usize) -> (r: RowPauli)
        requires
            self.wf(),
            qubit < self.n,
        ensures
            r.wf(self.n as int, logical_words_spec(self.n as int)),
            r.op(self.n as int) == image_of(self@, qubit as int, false, self.n as int),
    {
        self.image(qubit, false)
    }

    /// Bit `index` of the z-half (`of_x`) or the x-half of a row.
    fn column_bit(&self, row: usize, index: usize, of_x: bool) -> (r: bool)
        requires
            self.wf(),
            row < 2 * self.n,
            index < self.n,
        ensures
            r == if of_x {
                self@[row as int].z[index as int]
            } else {
                self@[row as int].x[index as int]
            },
    {
        assert(self.rows@[row as int].wf(self.n as int, self.words as int));
        if of_x {
            packed_bit(self.rows[row].z.as_slice(), index)
        } else {
            packed_bit(self.rows[row].x.as_slice(), index)
        }
    }

    /// Shared image body: `of_x` picks the half of the tableau the image bits
    /// come from.
    fn image(&self, qubit: usize, of_x: bool) -> (r: RowPauli)
        requires
            self.wf(),
            qubit < self.n,
        ensures
            r.wf(self.n as int, logical_words_spec(self.n as int)),
            r.op(self.n as int) == image_of(self@, qubit as int, of_x, self.n as int),
    {
        let live: usize = logical_words(self.n);
        let ghost n = self.n as int;
        let ghost t = self@;
        let mut out = RowPauli::identity(live);
        assert(out.wf(n, live as int));
        let mut j: usize = 0;
        while j < self.n
            invariant
                j <= self.n,
                self.wf(),
                n == self.n,
                t == self@,
                qubit < self.n,
                live == logical_words_spec(n),
                out.phase == 0,
                out.x@.len() == live,
                out.z@.len() == live,
                forall|i: int|
                    #[trigger] row_bit(out.x@, i) == (0 <= i < j && image_bits(
                        t,
                        qubit as int,
                        of_x,
                        1,
                        n,
                    )[i]),
                forall|i: int|
                    #[trigger] row_bit(out.z@, i) == (0 <= i < j && image_bits(
                        t,
                        qubit as int,
                        of_x,
                        0,
                        n,
                    )[i]),
            decreases self.n - j,
        {
            if self.column_bit(2 * j + 1, qubit, of_x) {
                assign_bit(&mut out.x, j, true);
            }
            if self.column_bit(2 * j, qubit, of_x) {
                assign_bit(&mut out.z, j, true);
            }
            j += 1;
        }
        assert(out.op(n).x =~= image_bits(t, qubit as int, of_x, 1, n));
        assert(out.op(n).z =~= image_bits(t, qubit as int, of_x, 0, n));
        let mut scratch = RowPauli::identity(self.words);
        assert(scratch.wf(n, self.words as int));
        self.accumulate(out.x.as_slice(), 0, &mut scratch);
        self.accumulate(out.z.as_slice(), 1, &mut scratch);
        out.phase = (4 - scratch.phase) % 4;
        assert(out.op(n) =~= image_of(t, qubit as int, of_x, n));
        out
    }

    /// Applies the Clifford whose preimage rows are `local` to `support`:
    /// `local[2i]` and `local[2i + 1]` are the preimages of `X_i` and `Z_i` on
    /// the Clifford's own qubits, and `support[i]` is its qubit `i`.
    pub fn left_clifford(&mut self, local: &[RowPauli], support: &[usize])
        requires
            old(self).wf(),
            local@.len() == 2 * support@.len(),
            forall|i: int|
                0 <= i < local@.len() ==> (#[trigger] local@[i]).wf(
                    support@.len() as int,
                    logical_words_spec(support@.len() as int),
                ),
            forall|i: int| 0 <= i < support@.len() ==> #[trigger] support@[i] < old(self).n,
            forall|i: int, j: int| 0 <= i < j < support@.len() ==> support@[i] != support@[j],
        ensures
            final(self).wf(),
            final(self).n == old(self).n,
            forall|i: int, half: int|
                0 <= i < support@.len() && 0 <= half < 2 ==> #[trigger] final(self)@[2 * support@[i]
                    + half] == remapped_preimage(
                    old(self)@,
                    local@[2 * i + half].op(support@.len() as int),
                    support@,
                    old(self).n as int,
                ),
            forall|r: int|
                0 <= r < 2 * old(self).n && (forall|i: int|
                    0 <= i < support@.len() ==> #[trigger] support@[i] != r / 2) ==> #[trigger] final(self)@[r]
                    == old(self)@[r],
    {
        let ghost n = self.n as int;
        let ghost t0 = self@;
        let ghost k = support@.len() as int;
        let mut fresh: Vec<RowPauli> = Vec::new();
        let mut i: usize = 0;
        while i < local.len()
            invariant
                i <= local@.len(),
                local@.len() == 2 * k,
                k == support@.len(),
                self.wf(),
                self.n == n,
                self@ == t0,
                forall|j: int|
                    0 <= j < local@.len() ==> (#[trigger] local@[j]).wf(k, logical_words_spec(k)),
                forall|j: int| 0 <= j < support@.len() ==> #[trigger] support@[j] < n,
                fresh@.len() == i,
                forall|j: int|
                    0 <= j < i ==> (#[trigger] fresh@[j]).wf(n, self.words as int) && fresh@[j].op(n)
                        == remapped_preimage(t0, local@[j].op(k), support@, n),
            decreases local@.len() - i,
        {
            assert(local@[i as int].wf(k, logical_words_spec(k)));
            let row: RowPauli = self.remapped_preimage_row(&local[i], support);
            fresh.push(row);
            i += 1;
        }
        let mut slot: usize = 0;
        while slot < support.len()
            invariant
                slot <= support@.len(),
                local@.len() == 2 * k,
                k == support@.len(),
                self.wf(),
                self.n == n,
                fresh@.len() == 2 * k,
                t0.len() == 2 * n,
                forall|j: int| 0 <= j < support@.len() ==> #[trigger] support@[j] < n,
                forall|a: int, b: int| 0 <= a < b < support@.len() ==> support@[a] != support@[b],
                forall|j: int|
                    0 <= j < fresh@.len() ==> (#[trigger] fresh@[j]).wf(n, self.words as int)
                        && fresh@[j].op(n) == remapped_preimage(t0, local@[j].op(k), support@, n),
                forall|j: int, half: int|
                    0 <= j < slot && 0 <= half < 2 ==> #[trigger] self@[2 * support@[j] + half]
                        == remapped_preimage(t0, local@[2 * j + half].op(k), support@, n),
                forall|r: int|
                    0 <= r < 2 * n && (forall|j: int|
                        0 <= j < slot ==> #[trigger] support@[j] != r / 2) ==> #[trigger] self@[r]
                        == t0[r],
            decreases support@.len() - slot,
        {
            let qubit: usize = support[slot];
            let ghost before = self@;
            let ghost rows_before = self.rows@;
            assert(2 * slot + 1 < fresh.len());
            let x_row: RowPauli = restride(&fresh[2 * slot], self.words, self.words);
            let z_row: RowPauli = restride(&fresh[2 * slot + 1], self.words, self.words);
            proof {
                assert(fresh@[2 * slot as int].wf(n, self.words as int));
                assert(fresh@[2 * slot as int + 1].wf(n, self.words as int));
                assert(x_row.op(n) =~= fresh@[2 * slot as int].op(n));
                assert(z_row.op(n) =~= fresh@[2 * slot as int + 1].op(n));
            }
            self.rows.set(2 * qubit, x_row);
            self.rows.set(2 * qubit + 1, z_row);
            proof {
                assert(self@ =~= before.update(2 * qubit as int, x_row.op(n)).update(
                    2 * qubit as int + 1,
                    z_row.op(n),
                ));
                assert forall|j: int, half: int|
                    0 <= j < slot + 1 && 0 <= half < 2 implies #[trigger] self@[2 * support@[j] + half]
                    == remapped_preimage(t0, local@[2 * j + half].op(k), support@, n) by {
                    if j < slot {
                        assert(support@[j] != support@[slot as int]);
                        assert(self@[2 * support@[j] + half] == before[2 * support@[j] + half]);
                    } else {
                        assert(half == 0 || half == 1);
                    }
                }
                assert forall|r: int|
                    0 <= r < 2 * n && (forall|j: int|
                        0 <= j < slot + 1 ==> #[trigger] support@[j] != r / 2) implies #[trigger] self@[r]
                    == t0[r] by {
                    assert(support@[slot as int] != r / 2);
                    assert(self@[r] == before[r]);
                }
            }
            slot += 1;
        }
    }

    /// `R†·P·R` for a Pauli given on local indices, remapped through `support`.
    fn remapped_preimage_row(&self, local: &RowPauli, support: &[usize]) -> (r: RowPauli)
        requires
            self.wf(),
            local.wf(support@.len() as int, logical_words_spec(support@.len() as int)),
            forall|i: int| 0 <= i < support@.len() ==> #[trigger] support@[i] < self.n,
        ensures
            r.wf(self.n as int, self.words as int),
            r.op(self.n as int) == remapped_preimage(
                self@,
                local.op(support@.len() as int),
                support@,
                self.n as int,
            ),
    {
        let ghost n = self.n as int;
        let ghost k = support@.len() as int;
        let ghost lop = local.op(k);
        let mut out = RowPauli::identity(self.words);
        assert(out.wf(n, self.words as int));
        let mut i: usize = 0;
        while i < support.len()
            invariant
                i <= support@.len(),
                k == support@.len(),
                n == self.n,
                self.wf(),
                local.wf(k, logical_words_spec(k)),
                lop == local.op(k),
                forall|j: int| 0 <= j < support@.len() ==> #[trigger] support@[j] < n,
                out.wf(n, self.words as int),
                out.op(n) == remapped_fold(identity_op(n), self@, lop.x, support@, 0, i as int),
            decreases support@.len() - i,
        {
            if packed_bit(local.x.as_slice(), i) {
                let row: usize = 2 * support[i];
                assert(self.rows@[row as int].wf(n, self.words as int));
                out.mul_right(&self.rows[row]);
            }
            i += 1;
        }
        let ghost x_part = out.op(n);
        let mut i: usize = 0;
        while i < support.len()
            invariant
                i <= support@.len(),
                k == support@.len(),
                n == self.n,
                self.wf(),
                local.wf(k, logical_words_spec(k)),
                lop == local.op(k),
                forall|j: int| 0 <= j < support@.len() ==> #[trigger] support@[j] < n,
                out.wf(n, self.words as int),
                out.op(n) == remapped_fold(x_part, self@, lop.z, support@, 1, i as int),
            decreases support@.len() - i,
        {
            if packed_bit(local.z.as_slice(), i) {
                let row: usize = 2 * support[i] + 1;
                assert(self.rows@[row as int].wf(n, self.words as int));
                out.mul_right(&self.rows[row]);
            }
            i += 1;
        }
        let ghost product = out.op(n);
        out.phase = (out.phase + local.phase) % 4;
        assert(out.op(n) =~= product.shifted(lop.phase));
        out
    }
}

/// Copies a row into `new_words` words per half, taking `live` words of each
/// half; the rest is padding.
fn restride(row: &RowPauli, new_words: usize, live: usize) -> (r: RowPauli)
    requires
        live <= new_words,
        live <= row.x@.len(),
        live <= row.z@.len(),
    ensures
        r.phase == row.phase,
        r.x@.len() == new_words,
        r.z@.len() == new_words,
        forall|i: int|
            0 <= i < 64 * new_words ==> #[trigger] row_bit(r.x@, i) == (i < 64 * live && row_bit(
                row.x@,
                i,
            )),
        forall|i: int|
            0 <= i < 64 * new_words ==> #[trigger] row_bit(r.z@, i) == (i < 64 * live && row_bit(
                row.z@,
                i,
            )),
{
    let mut r = RowPauli::identity(new_words);
    r.phase = row.phase;
    let mut k: usize = 0;
    while k < live
        invariant
            k <= live,
            live <= new_words,
            live <= row.x@.len(),
            live <= row.z@.len(),
            r.phase == row.phase,
            r.x@.len() == new_words,
            r.z@.len() == new_words,
            forall|j: int| 0 <= j < k ==> #[trigger] r.x@[j] == row.x@[j],
            forall|j: int| 0 <= j < k ==> #[trigger] r.z@[j] == row.z@[j],
            forall|i: int| 64 * k <= i < 64 * new_words ==> !#[trigger] row_bit(r.x@, i),
            forall|i: int| 64 * k <= i < 64 * new_words ==> !#[trigger] row_bit(r.z@, i),
        decreases live - k,
    {
        let ghost before = r;
        r.x.set(k, row.x[k]);
        r.z.set(k, row.z[k]);
        proof {
            assert forall|i: int| 64 * (k + 1) <= i < 64 * new_words implies !#[trigger] row_bit(
                r.x@,
                i,
            ) by {
                assert(!row_bit(before.x@, i));
                assert(i / 64 > k);
            }
            assert forall|i: int| 64 * (k + 1) <= i < 64 * new_words implies !#[trigger] row_bit(
                r.z@,
                i,
            ) by {
                assert(!row_bit(before.z@, i));
                assert(i / 64 > k);
            }
        }
        k += 1;
    }
    assert forall|i: int| 0 <= i < 64 * new_words implies #[trigger] row_bit(r.x@, i) == (i < 64 * live
        && row_bit(row.x@, i)) by {
        if i < 64 * live {
            assert(r.x@[i / 64] == row.x@[i / 64]);
        }
    }
    assert forall|i: int| 0 <= i < 64 * new_words implies #[trigger] row_bit(r.z@, i) == (i < 64 * live
        && row_bit(row.z@, i)) by {
        if i < 64 * live {
            assert(r.z@[i / 64] == row.z@[i / 64]);
        }
    }
    r
}

/// Clears the bits above `n` in the row's last live word. Words past it are
/// padding that [`restride`] already left at zero.
fn mask_tail(row: &mut RowPauli, n: usize)
    requires
        old(row).x@.len() == old(row).z@.len(),
        n <= 64 * old(row).x@.len(),
        old(row).x@.len() >= logical_words_spec(n as int),
        tail_clear(old(row).x@, 64 * logical_words_spec(n as int)),
        tail_clear(old(row).z@, 64 * logical_words_spec(n as int)),
    ensures
        final(row).phase == old(row).phase,
        final(row).x@.len() == old(row).x@.len(),
        final(row).z@.len() == old(row).z@.len(),
        forall|i: int|
            0 <= i < 64 * old(row).x@.len() ==> #[trigger] row_bit(final(row).x@, i) == (i < n
                && row_bit(old(row).x@, i)),
        forall|i: int|
            0 <= i < 64 * old(row).z@.len() ==> #[trigger] row_bit(final(row).z@, i) == (i < n
                && row_bit(old(row).z@, i)),
{
    let live: usize = logical_words(n);
    let kept: usize = n - 64 * (live - 1);
    let mask: u64 = crate::bits::low_bits_mask(kept);
    let x_word: u64 = row.x[live - 1] & mask;
    let z_word: u64 = row.z[live - 1] & mask;
    row.x.set(live - 1, x_word);
    row.z.set(live - 1, z_word);
    proof {
        assert forall|i: int| 0 <= i < 64 * old(row).x@.len() implies #[trigger] row_bit(row.x@, i) == (i
            < n && row_bit(old(row).x@, i)) by {
            crate::bits::lemma_row_bit_update(old(row).x@, live - 1, x_word, i);
            assert(crate::bits::word_bit(mask, i % 64) == (i % 64 < kept));
        }
        assert forall|i: int| 0 <= i < 64 * old(row).z@.len() implies #[trigger] row_bit(row.z@, i) == (i
            < n && row_bit(old(row).z@, i)) by {
            crate::bits::lemma_row_bit_update(old(row).z@, live - 1, z_word, i);
            assert(crate::bits::word_bit(mask, i % 64) == (i % 64 < kept));
        }
    }
}

} // verus!
