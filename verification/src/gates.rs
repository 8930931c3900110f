//! Named Clifford gates and what they do to a tableau.
//!
//! A single-qubit Clifford ([`Gate1Q`]) is one or two primitive frame updates. A
//! two-qubit `<A>C<B>` gate is `CZ` conjugated by the basis rotations that carry
//! `Z` onto `A` and `B`, which makes it the controlled Pauli on those axes
//! ([`law_gate2_is_a_controlled_pauli`]).
use vstd::prelude::*;
use crate::frame::{
    preimage_of, tableau_controlled, tableau_cx, tableau_cz, tableau_h, tableau_root_x,
    tableau_root_z, tableau_x, tableau_y, tableau_z,
};
use crate::frame_laws::{
    clifford, law_h, law_pauli_gates, law_preimage_of_basis, law_root_x, law_root_z,
};
use crate::pauli::{
    bit01, identity_op, lemma_anticommutes_symmetric, lemma_anticommutes_times, lemma_shifted_twice,
    lemma_times_associative, lemma_times_exchange, lemma_times_identity, lemma_times_shifted,
    lemma_times_square, x_op, z_op, PauliBasis, PauliOp,
};

verus! {

/// A named single-qubit Clifford, identified by the signed Pauli images
/// `(X -> .., Z -> ..)` of [`Gate1Q::images`].
#[derive(Debug, Clone, Copy, PartialEq, Eq, Hash, Structural)]
pub enum Gate1Q {
    /// `X -> +X`, `Z -> -Z`.
    X,
    /// `X -> -X`, `Z -> -Z`.
    Y,
    /// `X -> -X`, `Z -> +Z`.
    Z,
    /// Hadamard: `X -> +Z`, `Z -> +X`.
    H,
    /// Phase gate `S = √Z`: `X -> +Y`, `Z -> +Z`.
    S,
    /// `S† = √Z†`: `X -> -Y`, `Z -> +Z`.
    SDag,
    /// `√X`: `X -> +X`, `Z -> -Y`.
    SqrtX,
    /// `√X†`: `X -> +X`, `Z -> +Y`.
    SqrtXDag,
    /// `√Y`: `X -> -Z`, `Z -> +X`.
    SqrtY,
    /// `√Y†`: `X -> +Z`, `Z -> -X`.
    SqrtYDag,
    /// `H_XY`: `X -> +Y`, `Z -> -Z`.
    Hxy,
    /// `H_YZ`: `X -> -X`, `Z -> +Y`.
    Hyz,
    /// `H_NXY`: `X -> -Y`, `Z -> -Z`.
    Hnxy,
    /// `H_NXZ`: `X -> -Z`, `Z -> -X`.
    Hnxz,
    /// `H_NYZ`: `X -> -X`, `Z -> -Y`.
    Hnyz,
    /// `C_XYZ`, the order-three cycle `X -> Y -> Z -> X`.
    Cxyz,
    /// `C_ZYX`, the inverse cycle `X -> Z -> Y -> X`.
    Czyx,
    /// `C_NXYZ`: `X -> -Y`, `Z -> -X`.
    Cnxyz,
    /// `C_XNYZ`: `X -> -Y`, `Z -> +X`.
    Cxnyz,
    /// `C_XYNZ`: `X -> +Y`, `Z -> -X`.
    Cxynz,
    /// `C_NZYX`: `X -> -Z`, `Z -> -Y`.
    Cnzyx,
    /// `C_ZNYX`: `X -> +Z`, `Z -> -Y`.
    Cznyx,
    /// `C_ZYNX`: `X -> -Z`, `Z -> +Y`.
    Czynx,
}

impl Gate1Q {
    /// A gate's signed Pauli tableau as `(X -> image, Z -> image)`, each image
    /// an axis and whether it is negated. This defines the operation.
    pub open spec fn signed_images(self) -> ((PauliBasis, bool), (PauliBasis, bool)) {
        match self {
            Gate1Q::X => ((PauliBasis::X, false), (PauliBasis::Z, true)),
            Gate1Q::Y => ((PauliBasis::X, true), (PauliBasis::Z, true)),
            Gate1Q::Z => ((PauliBasis::X, true), (PauliBasis::Z, false)),
            Gate1Q::H => ((PauliBasis::Z, false), (PauliBasis::X, false)),
            Gate1Q::S => ((PauliBasis::Y, false), (PauliBasis::Z, false)),
            Gate1Q::SDag => ((PauliBasis::Y, true), (PauliBasis::Z, false)),
            Gate1Q::SqrtX => ((PauliBasis::X, false), (PauliBasis::Y, true)),
            Gate1Q::SqrtXDag => ((PauliBasis::X, false), (PauliBasis::Y, false)),
            Gate1Q::SqrtY => ((PauliBasis::Z, true), (PauliBasis::X, false)),
            Gate1Q::SqrtYDag => ((PauliBasis::Z, false), (PauliBasis::X, true)),
            Gate1Q::Hxy => ((PauliBasis::Y, false), (PauliBasis::Z, true)),
            Gate1Q::Hyz => ((PauliBasis::X, true), (PauliBasis::Y, false)),
            Gate1Q::Hnxy => ((PauliBasis::Y, true), (PauliBasis::Z, true)),
            Gate1Q::Hnxz => ((PauliBasis::Z, true), (PauliBasis::X, true)),
            Gate1Q::Hnyz => ((PauliBasis::X, true), (PauliBasis::Y, true)),
            Gate1Q::Cxyz => ((PauliBasis::Y, false), (PauliBasis::X, false)),
            Gate1Q::Czyx => ((PauliBasis::Z, false), (PauliBasis::Y, false)),
            Gate1Q::Cnxyz => ((PauliBasis::Y, true), (PauliBasis::X, true)),
            Gate1Q::Cxnyz => ((PauliBasis::Y, true), (PauliBasis::X, false)),
            Gate1Q::Cxynz => ((PauliBasis::Y, false), (PauliBasis::X, true)),
            Gate1Q::Cnzyx => ((PauliBasis::Z, true), (PauliBasis::Y, true)),
            Gate1Q::Cznyx => ((PauliBasis::Z, false), (PauliBasis::Y, true)),
            Gate1Q::Czynx => ((PauliBasis::Z, true), (PauliBasis::Y, false)),
        }
    }

    /// A gate's signed Pauli tableau as `(X -> image, Z -> image)`, each image
    /// an axis and whether it is negated.
    pub fn images(self) -> (r: ((PauliBasis, bool), (PauliBasis, bool)))
        ensures
            r == self.signed_images(),
    {
        match self {
            Gate1Q::X => ((PauliBasis::X, false), (PauliBasis::Z, true)),
            Gate1Q::Y => ((PauliBasis::X, true), (PauliBasis::Z, true)),
            Gate1Q::Z => ((PauliBasis::X, true), (PauliBasis::Z, false)),
            Gate1Q::H => ((PauliBasis::Z, false), (PauliBasis::X, false)),
            Gate1Q::S => ((PauliBasis::Y, false), (PauliBasis::Z, false)),
            Gate1Q::SDag => ((PauliBasis::Y, true), (PauliBasis::Z, false)),
            Gate1Q::SqrtX => ((PauliBasis::X, false), (PauliBasis::Y, true)),
            Gate1Q::SqrtXDag => ((PauliBasis::X, false), (PauliBasis::Y, false)),
            Gate1Q::SqrtY => ((PauliBasis::Z, true), (PauliBasis::X, false)),
            Gate1Q::SqrtYDag => ((PauliBasis::Z, false), (PauliBasis::X, true)),
            Gate1Q::Hxy => ((PauliBasis::Y, false), (PauliBasis::Z, true)),
            Gate1Q::Hyz => ((PauliBasis::X, true), (PauliBasis::Y, false)),
            Gate1Q::Hnxy => ((PauliBasis::Y, true), (PauliBasis::Z, true)),
            Gate1Q::Hnxz => ((PauliBasis::Z, true), (PauliBasis::X, true)),
            Gate1Q::Hnyz => ((PauliBasis::X, true), (PauliBasis::Y, true)),
            Gate1Q::Cxyz => ((PauliBasis::Y, false), (PauliBasis::X, false)),
            Gate1Q::Czyx => ((PauliBasis::Z, false), (PauliBasis::Y, false)),
            Gate1Q::Cnxyz => ((PauliBasis::Y, true), (PauliBasis::X, true)),
            Gate1Q::Cxnyz => ((PauliBasis::Y, true), (PauliBasis::X, false)),
            Gate1Q::Cxynz => ((PauliBasis::Y, false), (PauliBasis::X, true)),
            Gate1Q::Cnzyx => ((PauliBasis::Z, true), (PauliBasis::Y, true)),
            Gate1Q::Cznyx => ((PauliBasis::Z, false), (PauliBasis::Y, true)),
            Gate1Q::Czynx => ((PauliBasis::Z, true), (PauliBasis::Y, false)),
        }
    }
}

// ---------------------------------------------------------------------------
// Primitive updates
// ---------------------------------------------------------------------------
/// The frame updates the named gates are composed of.
#[derive(Debug, Clone, Copy, PartialEq, Eq, Structural)]
pub enum Primitive {
    X,
    Y,
    Z,
    H,
    S,
    SDag,
    SqrtX,
    SqrtXDag,
}

/// One primitive on a tableau.
pub open spec fn tableau_primitive(t: Seq<PauliOp>, p: Primitive, q: int) -> Seq<PauliOp> {
    match p {
        Primitive::X => tableau_x(t, q),
        Primitive::Y => tableau_y(t, q),
        Primitive::Z => tableau_z(t, q),
        Primitive::H => tableau_h(t, q),
        Primitive::S => tableau_root_z(t, q, 1),
        Primitive::SDag => tableau_root_z(t, q, 3),
        Primitive::SqrtX => tableau_root_x(t, q, 1),
        Primitive::SqrtXDag => tableau_root_x(t, q, 3),
    }
}

/// The primitives that make up a named gate, in the order they are applied.
pub open spec fn gate1_primitives(gate: Gate1Q) -> (Primitive, Option<Primitive>) {
    match gate {
        Gate1Q::X => (Primitive::X, None),
        Gate1Q::Y => (Primitive::Y, None),
        Gate1Q::Z => (Primitive::Z, None),
        Gate1Q::H => (Primitive::H, None),
        Gate1Q::S => (Primitive::S, None),
        Gate1Q::SDag => (Primitive::SDag, None),
        Gate1Q::SqrtX => (Primitive::SqrtX, None),
        Gate1Q::SqrtXDag => (Primitive::SqrtXDag, None),
        Gate1Q::SqrtY => (Primitive::Z, Some(Primitive::H)),
        Gate1Q::SqrtYDag => (Primitive::H, Some(Primitive::Z)),
        Gate1Q::Hxy => (Primitive::SDag, Some(Primitive::X)),
        Gate1Q::Hyz => (Primitive::SqrtX, Some(Primitive::Z)),
        Gate1Q::Hnxy => (Primitive::S, Some(Primitive::X)),
        Gate1Q::Hnxz => (Primitive::H, Some(Primitive::Y)),
        Gate1Q::Hnyz => (Primitive::SqrtX, Some(Primitive::Y)),
        Gate1Q::Cxyz => (Primitive::SqrtX, Some(Primitive::S)),
        Gate1Q::Cnxyz => (Primitive::SqrtX, Some(Primitive::SDag)),
        Gate1Q::Cxnyz => (Primitive::SqrtXDag, Some(Primitive::SDag)),
        Gate1Q::Cxynz => (Primitive::SqrtXDag, Some(Primitive::S)),
        Gate1Q::Czyx => (Primitive::SDag, Some(Primitive::SqrtXDag)),
        Gate1Q::Cnzyx => (Primitive::SDag, Some(Primitive::SqrtX)),
        Gate1Q::Cznyx => (Primitive::S, Some(Primitive::SqrtX)),
        Gate1Q::Czynx => (Primitive::S, Some(Primitive::SqrtXDag)),
    }
}

/// A named gate on a tableau.
pub open spec fn tableau_gate1(t: Seq<PauliOp>, gate: Gate1Q, q: int) -> Seq<PauliOp> {
    let first = tableau_primitive(t, gate1_primitives(gate).0, q);
    match gate1_primitives(gate).1 {
        None => first,
        Some(second) => tableau_primitive(first, second, q),
    }
}

/// The preimage of a basis axis at a qubit: a stored row, or for `Y` the product
/// of the two with one more factor of `i`.
pub open spec fn axis_row(t: Seq<PauliOp>, axis: PauliBasis, q: int) -> PauliOp {
    match axis {
        PauliBasis::X => t[2 * q],
        PauliBasis::Z => t[2 * q + 1],
        PauliBasis::Y => t[2 * q].times(t[2 * q + 1]).shifted(1),
    }
}

/// `<A>C<B>`: rows of the control qubit that anticommute with `A` gain the
/// preimage of `B`, and rows of the target qubit that anticommute with `B` gain
/// the preimage of `A`.
pub open spec fn tableau_gate2(
    t: Seq<PauliOp>,
    control: PauliBasis,
    target: PauliBasis,
    c: int,
    k: int,
) -> Seq<PauliOp> {
    let cf = axis_row(t, control, c);
    let tf = axis_row(t, target, k);
    Seq::new(
        t.len(),
        |r: int|
            if r / 2 == c && axis_selects(control, r) {
                tf.times(t[r])
            } else if r / 2 == k && axis_selects(target, r) {
                cf.times(t[r])
            } else {
                t[r]
            },
    )
}

/// Whether the basis operator of row `r` anticommutes with the axis at its
/// qubit.
pub open spec fn axis_selects(axis: PauliBasis, r: int) -> bool {
    if r % 2 == 1 {
        axis.has_x()
    } else {
        axis.has_z()
    }
}

// ---------------------------------------------------------------------------
// Laws
// ---------------------------------------------------------------------------
/// Primitives keep a Clifford tableau one and touch only their qubit's rows.
#[verifier::rlimit(60)]
pub proof fn law_primitive(t: Seq<PauliOp>, n: int, p: Primitive, q: int)
    requires
        clifford(t, n),
        0 <= q < n,
    ensures
        clifford(tableau_primitive(t, p, q), n),
        tableau_primitive(t, p, q).len() == 2 * n,
        forall|r: int| 0 <= r < 2 * n && r / 2 != q ==> #[trigger] tableau_primitive(t, p, q)[r] == t[r],
{
    match p {
        Primitive::X => law_pauli_gates(t, n, q),
        Primitive::Y => law_pauli_gates(t, n, q),
        Primitive::Z => law_pauli_gates(t, n, q),
        Primitive::H => law_h(t, n, q),
        Primitive::S => law_root_z(t, n, q, 1),
        Primitive::SDag => law_root_z(t, n, q, 3),
        Primitive::SqrtX => law_root_x(t, n, q, 1),
        Primitive::SqrtXDag => law_root_x(t, n, q, 3),
    }
}

/// Named gates keep a Clifford tableau one and touch only their qubit's rows.
#[verifier::rlimit(60)]
pub proof fn law_gate1(t: Seq<PauliOp>, n: int, gate: Gate1Q, q: int)
    requires
        clifford(t, n),
        0 <= q < n,
    ensures
        clifford(tableau_gate1(t, gate, q), n),
        forall|r: int| 0 <= r < 2 * n && r / 2 != q ==> #[trigger] tableau_gate1(t, gate, q)[r] == t[r],
{
    let parts = gate1_primitives(gate);
    law_primitive(t, n, parts.0, q);
    if let Some(second) = parts.1 {
        law_primitive(tableau_primitive(t, parts.0, q), n, second, q);
    }
}

/// `i^k · x^a · z^b` for a qubit's two rows.
#[verifier::opaque]
spec fn word(x: PauliOp, z: PauliOp, k: int, a: bool, b: bool) -> PauliOp {
    if a && b {
        x.times(z).shifted(k)
    } else if a {
        x.shifted(k)
    } else if b {
        z.shifted(k)
    } else {
        identity_op(x.x.len() as int).shifted(k)
    }
}

/// Two Hermitian rows that anticommute generate a group of sixteen words.
#[verifier::rlimit(60)]
proof fn lemma_word_times(
    n: int,
    x: PauliOp,
    z: PauliOp,
    k1: int,
    a1: bool,
    b1: bool,
    k2: int,
    a2: bool,
    b2: bool,
)
    requires
        x.on(n),
        z.on(n),
        x.hermitian(),
        z.hermitian(),
        x.anticommutes(z),
    ensures
        word(x, z, k1, a1, b1).times(word(x, z, k2, a2, b2)) == word(
            x,
            z,
            k1 + k2 + 2 * bit01(b1 && a2),
            a1 != a2,
            b1 != b2,
        ),
{
    let u1 = word(x, z, 0, a1, b1);
    let u2 = word(x, z, 0, a2, b2);
    let d = 2 * bit01(b1 && a2);
    lemma_word_shift(n, x, z, k1, a1, b1);
    lemma_word_shift(n, x, z, k2, a2, b2);
    lemma_word_core(n, x, z, a1, b1, a2, b2);
    assert(u1.shifted(k1).times(u2.shifted(k2)) == u1.times(u2).shifted(k2).shifted(k1)) by {
        lemma_times_shifted(n, u1, u2.shifted(k2), k1);
        lemma_times_shifted(n, u1, u2, k2);
    }
    lemma_word_shifted(n, x, z, d, a1 != a2, b1 != b2, k2);
    lemma_word_shifted(n, x, z, d + k2, a1 != a2, b1 != b2, k1);
}

/// Shifting a word moves its exponent.
proof fn lemma_word_shifted(n: int, x: PauliOp, z: PauliOp, k: int, a: bool, b: bool, d: int)
    requires
        x.on(n),
        z.on(n),
    ensures
        word(x, z, k, a, b).shifted(d) == word(x, z, k + d, a, b),
{
    lemma_word_shift(n, x, z, k, a, b);
    lemma_word_shift(n, x, z, k + d, a, b);
    lemma_shifted_twice(word(x, z, 0, a, b), k, d);
}

#[verifier::rlimit(60)]
proof fn lemma_word_shift(n: int, x: PauliOp, z: PauliOp, k: int, a: bool, b: bool)
    requires
        x.on(n),
        z.on(n),
    ensures
        word(x, z, k, a, b) == word(x, z, 0, a, b).shifted(k),
        word(x, z, 0, a, b).on(n),
{
    reveal(word);
    let base = if a && b {
        x.times(z)
    } else if a {
        x
    } else if b {
        z
    } else {
        identity_op(n)
    };
    assert(base.on(n));
    assert(base.shifted(0) == base);
}

#[verifier::rlimit(60)]
proof fn lemma_word_core(n: int, x: PauliOp, z: PauliOp, a1: bool, b1: bool, a2: bool, b2: bool)
    requires
        x.on(n),
        z.on(n),
        x.hermitian(),
        z.hermitian(),
        x.anticommutes(z),
    ensures
        word(x, z, 0, a1, b1).times(word(x, z, 0, a2, b2)) == word(
            x,
            z,
            2 * bit01(b1 && a2),
            a1 != a2,
            b1 != b2,
        ),
{
    reveal(word);
    let id = identity_op(n);
    let xz = x.times(z);
    assert(xz.on(n));
    lemma_unshifted(n, x);
    lemma_unshifted(n, z);
    lemma_unshifted(n, xz);
    lemma_unshifted(n, id);
    lemma_times_identity(n, x);
    lemma_times_identity(n, z);
    lemma_times_identity(n, xz);
    lemma_times_identity(n, id);
    lemma_times_square(n, x);
    lemma_times_square(n, z);
    // z x = -x z
    lemma_anticommutes_symmetric(n, z, x);
    lemma_times_exchange(n, z, x);
    assert(z.times(x) == xz.shifted(2));
    // x (x z) = z, (x z) z = x
    lemma_times_associative(n, x, x, z);
    lemma_times_associative(n, x, z, z);
    assert(x.times(xz) == z);
    assert(xz.times(z) == x);
    // z (x z) = -x, (x z) x = -z
    lemma_times_associative(n, z, x, z);
    lemma_times_shifted(n, xz, z, 2);
    assert(z.times(xz) == x.shifted(2));
    lemma_times_associative(n, x, z, x);
    lemma_times_shifted(n, x, xz, 2);
    assert(xz.times(x) == z.shifted(2));
    // (x z) (x z) = -1
    lemma_times_associative(n, x, z, xz);
    lemma_times_shifted(n, x, x, 2);
    assert(xz.times(xz) == id.shifted(2));
}

proof fn lemma_unshifted(n: int, p: PauliOp)
    requires
        p.on(n),
    ensures
        p.shifted(0) == p,
{
}

/// Equal exponents modulo 4 give equal words.
proof fn lemma_word_mod(n: int, x: PauliOp, z: PauliOp, j: int, k: int, a: bool, b: bool)
    requires
        x.on(n),
        z.on(n),
        (j - k) % 4 == 0,
    ensures
        word(x, z, j, a, b) == word(x, z, k, a, b),
{
    lemma_word_shift(n, x, z, j, a, b);
    lemma_word_shift(n, x, z, k, a, b);
    let w = word(x, z, 0, a, b);
    assert((w.phase + j) % 4 == (w.phase + k) % 4);
}

/// A pair of rows written as words: exponent and the two factors.
spec fn pair_is(
    t: Seq<PauliOp>,
    q: int,
    x: PauliOp,
    z: PauliOp,
    k0: int,
    a0: bool,
    b0: bool,
    k1: int,
    a1: bool,
    b1: bool,
) -> bool {
    t[2 * q] == word(x, z, k0, a0, b0) && t[2 * q + 1] == word(x, z, k1, a1, b1)
}

/// The exponents and factors of a qubit's two rows after one primitive.
spec fn primitive_words(
    p: Primitive,
    k0: int,
    a0: bool,
    b0: bool,
    k1: int,
    a1: bool,
    b1: bool,
) -> ((int, bool, bool), (int, bool, bool)) {
    match p {
        Primitive::X => ((k0, a0, b0), (k1 + 2, a1, b1)),
        Primitive::Y => ((k0 + 2, a0, b0), (k1 + 2, a1, b1)),
        Primitive::Z => ((k0 + 2, a0, b0), (k1, a1, b1)),
        Primitive::H => ((k1, a1, b1), (k0, a0, b0)),
        Primitive::S => ((k0 + k1 + 1 + 2 * bit01(b1 && a0), a0 != a1, b0 != b1), (k1, a1, b1)),
        Primitive::SDag => ((k0 + k1 + 3 + 2 * bit01(b1 && a0), a0 != a1, b0 != b1), (k1, a1, b1)),
        Primitive::SqrtX => ((k0, a0, b0), (k0 + k1 + 1 + 2 * bit01(b0 && a1), a0 != a1, b0 != b1)),
        Primitive::SqrtXDag => ((k0, a0, b0), (k0 + k1 + 3 + 2 * bit01(b0 && a1), a0 != a1, b0 != b1)),
    }
}

#[verifier::rlimit(60)]
proof fn lemma_primitive_words(
    t: Seq<PauliOp>,
    n: int,
    p: Primitive,
    q: int,
    x: PauliOp,
    z: PauliOp,
    k0: int,
    a0: bool,
    b0: bool,
    k1: int,
    a1: bool,
    b1: bool,
)
    requires
        t.len() == 2 * n,
        0 <= q < n,
        x.on(n),
        z.on(n),
        x.hermitian(),
        z.hermitian(),
        x.anticommutes(z),
        pair_is(t, q, x, z, k0, a0, b0, k1, a1, b1),
    ensures
        ({
            let w = primitive_words(p, k0, a0, b0, k1, a1, b1);
            pair_is(
                tableau_primitive(t, p, q),
                q,
                x,
                z,
                w.0.0,
                w.0.1,
                w.0.2,
                w.1.0,
                w.1.1,
                w.1.2,
            )
        }),
{
    let t0 = t[2 * q];
    let t1 = t[2 * q + 1];
    lemma_word_shifted(n, x, z, k0, a0, b0, 2);
    lemma_word_shifted(n, x, z, k1, a1, b1, 2);
    match p {
        Primitive::S => {
            lemma_word_times(n, x, z, k1, a1, b1, k0, a0, b0);
            lemma_word_shifted(n, x, z, k1 + k0 + 2 * bit01(b1 && a0), a1 != a0, b1 != b0, 1);
        },
        Primitive::SDag => {
            lemma_word_times(n, x, z, k1, a1, b1, k0, a0, b0);
            lemma_word_shifted(n, x, z, k1 + k0 + 2 * bit01(b1 && a0), a1 != a0, b1 != b0, 3);
        },
        Primitive::SqrtX => {
            lemma_word_times(n, x, z, k0, a0, b0, k1, a1, b1);
            lemma_word_shifted(n, x, z, k0 + k1 + 2 * bit01(b0 && a1), a0 != a1, b0 != b1, 1);
        },
        Primitive::SqrtXDag => {
            lemma_word_times(n, x, z, k0, a0, b0, k1, a1, b1);
            lemma_word_shifted(n, x, z, k0 + k1 + 2 * bit01(b0 && a1), a0 != a1, b0 != b1, 3);
        },
        _ => {},
    }
}

/// The exponent and factors of an axis over a pair of words.
spec fn axis_word(
    axis: PauliBasis,
    k0: int,
    a0: bool,
    b0: bool,
    k1: int,
    a1: bool,
    b1: bool,
) -> (int, bool, bool) {
    match axis {
        PauliBasis::X => (k0, a0, b0),
        PauliBasis::Z => (k1, a1, b1),
        PauliBasis::Y => (k0 + k1 + 1 + 2 * bit01(b0 && a1), a0 != a1, b0 != b1),
    }
}

#[verifier::rlimit(60)]
proof fn lemma_axis_word(
    t: Seq<PauliOp>,
    n: int,
    axis: PauliBasis,
    q: int,
    x: PauliOp,
    z: PauliOp,
    k0: int,
    a0: bool,
    b0: bool,
    k1: int,
    a1: bool,
    b1: bool,
)
    requires
        x.on(n),
        z.on(n),
        x.hermitian(),
        z.hermitian(),
        x.anticommutes(z),
        pair_is(t, q, x, z, k0, a0, b0, k1, a1, b1),
    ensures
        ({
            let w = axis_word(axis, k0, a0, b0, k1, a1, b1);
            axis_row(t, axis, q) == word(x, z, w.0, w.1, w.2)
        }),
{
    if axis == PauliBasis::Y {
        lemma_word_times(n, x, z, k0, a0, b0, k1, a1, b1);
        lemma_word_shifted(n, x, z, k0 + k1 + 2 * bit01(b0 && a1), a0 != a1, b0 != b1, 1);
    }
}

/// The exponents and factors of a qubit's two rows after a named gate.
spec fn gate1_words(gate: Gate1Q) -> ((int, bool, bool), (int, bool, bool)) {
    let parts = gate1_primitives(gate);
    let w = primitive_words(parts.0, 0, true, false, 0, false, true);
    match parts.1 {
        None => w,
        Some(second) => primitive_words(second, w.0.0, w.0.1, w.0.2, w.1.0, w.1.1, w.1.2),
    }
}

#[verifier::spinoff_prover]
#[verifier::rlimit(60)]
proof fn lemma_gate1_words(gate: Gate1Q)
    ensures
        ({
            let w = gate1_words(gate);
            let images = gate.signed_images();
            let ix = axis_word(images.0.0, w.0.0, w.0.1, w.0.2, w.1.0, w.1.1, w.1.2);
            let iz = axis_word(images.1.0, w.0.0, w.0.1, w.0.2, w.1.0, w.1.1, w.1.2);
            &&& ix.1 && !ix.2 && (ix.0 + 2 * bit01(images.0.1)) % 4 == 0
            &&& !iz.1 && iz.2 && (iz.0 + 2 * bit01(images.1.1)) % 4 == 0
        }),
{
}

#[verifier::rlimit(60)]
proof fn lemma_gate1_pair(t: Seq<PauliOp>, n: int, gate: Gate1Q, q: int, x: PauliOp, z: PauliOp)
    requires
        t.len() == 2 * n,
        0 <= q < n,
        x == t[2 * q],
        z == t[2 * q + 1],
        x.on(n),
        z.on(n),
        x.hermitian(),
        z.hermitian(),
        x.anticommutes(z),
    ensures
        ({
            let w = gate1_words(gate);
            pair_is(
                tableau_gate1(t, gate, q),
                q,
                x,
                z,
                w.0.0,
                w.0.1,
                w.0.2,
                w.1.0,
                w.1.1,
                w.1.2,
            )
        }),
{
    assert(pair_is(t, q, x, z, 0, true, false, 0, false, true)) by {
        reveal(word);
        lemma_unshifted(n, x);
        lemma_unshifted(n, z);
    }
    let parts = gate1_primitives(gate);
    let w = primitive_words(parts.0, 0, true, false, 0, false, true);
    lemma_primitive_words(t, n, parts.0, q, x, z, 0, true, false, 0, false, true);
    let first = tableau_primitive(t, parts.0, q);
    assert(first.len() == 2 * n);
    if let Some(second) = parts.1 {
        lemma_primitive_words(
            first,
            n,
            second,
            q,
            x,
            z,
            w.0.0,
            w.0.1,
            w.0.2,
            w.1.0,
            w.1.1,
            w.1.2,
        );
    }
}

/// Each composition reproduces the tableau its own [`Gate1Q::images`]
/// advertises: reading the image of `X` (or `Z`) through the new frame gives
/// back what the old frame stored for `X` (or `Z`).
#[verifier::rlimit(60)]
pub proof fn law_gate1_matches_images(t: Seq<PauliOp>, n: int, gate: Gate1Q, q: int)
    requires
        clifford(t, n),
        0 <= q < n,
    ensures
        ({
            let u = tableau_gate1(t, gate, q);
            let images = gate.signed_images();
            &&& axis_row(u, images.0.0, q).shifted(2 * bit01(images.0.1)) == t[2 * q]
            &&& axis_row(u, images.1.0, q).shifted(2 * bit01(images.1.1)) == t[2 * q + 1]
        }),
{
    let x = t[2 * q];
    let z = t[2 * q + 1];
    assert(x.on(n) && z.on(n) && x.hermitian() && z.hermitian());
    assert(x.anticommutes(z));
    let u = tableau_gate1(t, gate, q);
    let w = gate1_words(gate);
    lemma_gate1_pair(t, n, gate, q, x, z);
    let images = gate.signed_images();
    let ix = axis_word(images.0.0, w.0.0, w.0.1, w.0.2, w.1.0, w.1.1, w.1.2);
    let iz = axis_word(images.1.0, w.0.0, w.0.1, w.0.2, w.1.0, w.1.1, w.1.2);
    lemma_axis_word(u, n, images.0.0, q, x, z, w.0.0, w.0.1, w.0.2, w.1.0, w.1.1, w.1.2);
    lemma_axis_word(u, n, images.1.0, q, x, z, w.0.0, w.0.1, w.0.2, w.1.0, w.1.1, w.1.2);
    let sx = 2 * bit01(images.0.1);
    let sz = 2 * bit01(images.1.1);
    lemma_gate1_words(gate);
    assert(word(x, z, ix.0, true, false).shifted(sx) == x) by {
        lemma_word_shifted(n, x, z, ix.0, true, false, sx);
        lemma_word_mod(n, x, z, ix.0 + sx, 0, true, false);
        reveal(word);
        lemma_unshifted(n, x);
    }
    assert(word(x, z, iz.0, false, true).shifted(sz) == z) by {
        lemma_word_shifted(n, x, z, iz.0, false, true, sz);
        lemma_word_mod(n, x, z, iz.0 + sz, 0, false, true);
        reveal(word);
        lemma_unshifted(n, z);
    }
}

// ---------------------------------------------------------------------------
// Two-qubit gates
// ---------------------------------------------------------------------------
/// Conjugates a qubit so that `basis` becomes `Z`.
pub open spec fn tableau_to_z(t: Seq<PauliOp>, basis: PauliBasis, q: int) -> Seq<PauliOp> {
    match basis {
        PauliBasis::X => tableau_h(t, q),
        PauliBasis::Y => tableau_root_x(t, q, 1),
        PauliBasis::Z => t,
    }
}

/// Undoes [`tableau_to_z`].
pub open spec fn tableau_from_z(t: Seq<PauliOp>, basis: PauliBasis, q: int) -> Seq<PauliOp> {
    match basis {
        PauliBasis::X => tableau_h(t, q),
        PauliBasis::Y => tableau_root_x(t, q, 3),
        PauliBasis::Z => t,
    }
}

/// `(f·x)·(i·x·z)·i³ = f·z`.
#[verifier::rlimit(60)]
#[verifier::spinoff_prover]
proof fn lemma_y_conjugate(n: int, f: PauliOp, x: PauliOp, z: PauliOp)
    requires
        f.on(n),
        x.on(n),
        z.on(n),
        x.hermitian(),
    ensures
        f.times(x).times(x.times(z).shifted(1)).shifted(3) == f.times(z),
{
    let w = x.times(z).shifted(1);
    assert(w.on(n));
    lemma_times_associative(n, f, x, w);
    assert(x.times(w) == z.shifted(1)) by {
        lemma_times_shifted(n, x, x.times(z), 1);
        lemma_times_associative(n, x, x, z);
        lemma_times_square(n, x);
        lemma_times_identity(n, z);
    }
    assert(f.times(z.shifted(1)) == f.times(z).shifted(1)) by {
        lemma_times_shifted(n, f, z, 1);
    }
    let m = f.times(z);
    assert(m.on(n));
    assert(m.shifted(1).shifted(3) == m.shifted(4)) by {
        lemma_shifted_twice(m, 1, 3);
    }
    assert(m.shifted(4) == m);
}

/// A `Z`-axis operation conjugated by the basis change acts about the basis axis:
/// the changed frame holds the axis as its `Z` row, and the change is undone.
#[verifier::rlimit(60)]
pub proof fn law_basis_change_turns_the_axis(
    t: Seq<PauliOp>,
    basis: PauliBasis,
    q: int,
    n: int,
)
    requires
        clifford(t, n),
        0 <= q < n,
    ensures
        axis_row(tableau_to_z(t, basis, q), PauliBasis::Z, q) == axis_row(t, basis, q),
        tableau_from_z(tableau_to_z(t, basis, q), basis, q) == t,
{
    let x = t[2 * q];
    let z = t[2 * q + 1];
    assert(x.on(n) && z.on(n) && x.hermitian());
    if basis == PauliBasis::Y {
        let one = crate::pauli::identity_op(n);
        lemma_y_conjugate(n, one, x, z);
        lemma_times_identity(n, x);
        lemma_times_identity(n, z);
    }
    assert(tableau_from_z(tableau_to_z(t, basis, q), basis, q) =~= t);
}

/// One qubit's rows through the conjugation: the rows that anticommute with the
/// axis gain the factor that the conjugated `CZ` multiplies in.
spec fn conjugated_pair(basis: PauliBasis, f: PauliOp, x: PauliOp, z: PauliOp) -> (PauliOp, PauliOp) {
    let (x1, z1) = match basis {
        PauliBasis::X => (z, x),
        PauliBasis::Y => (x, x.times(z).shifted(1)),
        PauliBasis::Z => (x, z),
    };
    let x2 = f.times(x1);
    match basis {
        PauliBasis::X => (z1, x2),
        PauliBasis::Y => (x2, x2.times(z1).shifted(3)),
        PauliBasis::Z => (x2, z1),
    }
}

#[verifier::rlimit(60)]
proof fn lemma_conjugated_pair(n: int, basis: PauliBasis, f: PauliOp, x: PauliOp, z: PauliOp)
    requires
        f.on(n),
        x.on(n),
        z.on(n),
        x.hermitian(),
    ensures
        conjugated_pair(basis, f, x, z).0 == if basis.has_z() {
            f.times(x)
        } else {
            x
        },
        conjugated_pair(basis, f, x, z).1 == if basis.has_x() {
            f.times(z)
        } else {
            z
        },
{
    if basis == PauliBasis::Y {
        lemma_y_conjugate(n, f, x, z);
    }
}

/// The conjugated `CZ` on a tableau.
pub open spec fn tableau_conjugated_cz(
    t: Seq<PauliOp>,
    control: PauliBasis,
    target: PauliBasis,
    c: int,
    k: int,
) -> Seq<PauliOp> {
    let inner = tableau_cz(tableau_to_z(tableau_to_z(t, control, c), target, k), c, k);
    tableau_from_z(tableau_from_z(inner, target, k), control, c)
}

/// Conjugating `CZ` by basis rotations gives a controlled Pauli about those axes.
#[verifier::rlimit(60)]
#[verifier::spinoff_prover]
pub proof fn law_conjugated_cz_is_gate2(
    t: Seq<PauliOp>,
    n: int,
    control: PauliBasis,
    target: PauliBasis,
    c: int,
    k: int,
)
    requires
        clifford(t, n),
        0 <= c < n,
        0 <= k < n,
        c != k,
    ensures
        tableau_conjugated_cz(t, control, target, c, k) == tableau_gate2(t, control, target, c, k),
{
    let xc = t[2 * c];
    let zc = t[2 * c + 1];
    let xk = t[2 * k];
    let zk = t[2 * k + 1];
    assert(xc.on(n) && zc.on(n) && xk.on(n) && zk.on(n));
    assert(xc.hermitian() && xk.hermitian());
    let cf = axis_row(t, control, c);
    let tf = axis_row(t, target, k);
    assert(cf.on(n) && tf.on(n));
    lemma_conjugated_pair(n, control, tf, xc, zc);
    lemma_conjugated_pair(n, target, cf, xk, zk);
    let u = tableau_conjugated_cz(t, control, target, c, k);
    lemma_conjugated_rows(t, n, control, target, c, k);
    assert forall|r: int| 0 <= r < t.len() implies u[r] == tableau_gate2(t, control, target, c, k)[r] by {
        assert(r == 2 * (r / 2) + r % 2);
    }
    assert(u =~= tableau_gate2(t, control, target, c, k));
}

proof fn lemma_conjugated_rows(
    t: Seq<PauliOp>,
    n: int,
    control: PauliBasis,
    target: PauliBasis,
    c: int,
    k: int,
)
    requires
        t.len() == 2 * n,
        0 <= c < n,
        0 <= k < n,
        c != k,
    ensures
        ({
            let u = tableau_conjugated_cz(t, control, target, c, k);
            let pc = conjugated_pair(control, axis_row(t, target, k), t[2 * c], t[2 * c + 1]);
            let pk = conjugated_pair(target, axis_row(t, control, c), t[2 * k], t[2 * k + 1]);
            &&& u.len() == 2 * n
            &&& u[2 * c] == pc.0
            &&& u[2 * c + 1] == pc.1
            &&& u[2 * k] == pk.0
            &&& u[2 * k + 1] == pk.1
            &&& forall|r: int| 0 <= r < 2 * n && r / 2 != c && r / 2 != k ==> #[trigger] u[r] == t[r]
        }),
{
    let t1 = tableau_to_z(t, control, c);
    let t2 = tableau_to_z(t1, target, k);
    assert(t2[2 * c + 1] == axis_row(t, control, c));
    assert(t2[2 * k + 1] == axis_row(t, target, k));
    let t3 = tableau_cz(t2, c, k);
    let t4 = tableau_from_z(t3, target, k);
    let u = tableau_from_z(t4, control, c);
    assert(t4[2 * c] == t3[2 * c] && t4[2 * c + 1] == t3[2 * c + 1]);
    assert(u[2 * k] == t4[2 * k] && u[2 * k + 1] == t4[2 * k + 1]);
}

/// CNOT is the controlled Pauli about `Z` and `X`, in either direction.
pub proof fn law_cx_is_gate2(t: Seq<PauliOp>, n: int, c: int, k: int)
    requires
        t.len() == 2 * n,
        0 <= c < n,
        0 <= k < n,
        c != k,
    ensures
        tableau_cx(t, c, k) == tableau_gate2(t, PauliBasis::Z, PauliBasis::X, c, k),
        tableau_cx(t, c, k) == tableau_gate2(t, PauliBasis::X, PauliBasis::Z, k, c),
        tableau_cz(t, c, k) == tableau_gate2(t, PauliBasis::Z, PauliBasis::Z, c, k),
{
    assert forall|r: int| 0 <= r < t.len() implies tableau_cx(t, c, k)[r] == tableau_gate2(
        t,
        PauliBasis::Z,
        PauliBasis::X,
        c,
        k,
    )[r] && tableau_cx(t, c, k)[r] == tableau_gate2(t, PauliBasis::X, PauliBasis::Z, k, c)[r]
        && tableau_cz(t, c, k)[r] == tableau_gate2(t, PauliBasis::Z, PauliBasis::Z, c, k)[r] by {
        assert(r == 2 * (r / 2) + r % 2);
    }
    assert(tableau_cx(t, c, k) =~= tableau_gate2(t, PauliBasis::Z, PauliBasis::X, c, k));
    assert(tableau_cx(t, c, k) =~= tableau_gate2(t, PauliBasis::X, PauliBasis::Z, k, c));
    assert(tableau_cz(t, c, k) =~= tableau_gate2(t, PauliBasis::Z, PauliBasis::Z, c, k));
}

/// The bits of a basis axis at one qubit.
pub open spec fn axis_op(n: int, axis: PauliBasis, q: int) -> PauliOp {
    PauliOp {
        x: Seq::new(n as nat, |i: int| i == q && axis.has_x()),
        z: Seq::new(n as nat, |i: int| i == q && axis.has_z()),
        phase: bit01(axis == PauliBasis::Y),
    }
}

/// The preimage of a basis axis is read off the stored rows.
pub proof fn law_axis_row_is_preimage(t: Seq<PauliOp>, n: int, axis: PauliBasis, q: int)
    requires
        crate::frame_laws::tableau_on(t, n),
        0 <= q < n,
    ensures
        preimage_of(t, axis_op(n, axis, q).x, axis_op(n, axis, q).z, n) == axis_row(t, axis, q),
{
    law_preimage_of_basis(t, n, q);
    let a = axis_op(n, axis, q);
    match axis {
        PauliBasis::X => {
            assert(a.x =~= x_op(n, q).x);
            assert(a.z =~= x_op(n, q).z);
        },
        PauliBasis::Y => {
            assert(a.x =~= x_op(n, q).x);
            assert(a.z =~= z_op(n, q).z);
        },
        PauliBasis::Z => {
            assert(a.x =~= z_op(n, q).x);
            assert(a.z =~= z_op(n, q).z);
        },
    }
}

/// `<A>C<B>` is the controlled Pauli on the corresponding single-qubit axes, and
/// keeps a Clifford tableau one.
#[verifier::rlimit(60)]
pub proof fn law_gate2_is_a_controlled_pauli(
    t: Seq<PauliOp>,
    n: int,
    control: PauliBasis,
    target: PauliBasis,
    c: int,
    k: int,
)
    requires
        clifford(t, n),
        0 <= c < n,
        0 <= k < n,
        c != k,
    ensures
        ({
            let a = axis_op(n, control, c);
            let b = axis_op(n, target, k);
            tableau_gate2(t, control, target, c, k) == tableau_controlled(t, a.x, a.z, b.x, b.z, n)
        }),
        clifford(tableau_gate2(t, control, target, c, k), n),
{
    let a = axis_op(n, control, c);
    let b = axis_op(n, target, k);
    law_axis_row_is_preimage(t, n, control, c);
    law_axis_row_is_preimage(t, n, target, k);
    let cf = axis_row(t, control, c);
    let tf = axis_row(t, target, k);
    let u = tableau_controlled(t, a.x, a.z, b.x, b.z, n);
    let v = tableau_gate2(t, control, target, c, k);
    assert forall|r: int| 0 <= r < t.len() implies u[r] == v[r] by {
        assert(r == 2 * (r / 2) + r % 2);
        crate::frame_laws::lemma_controlled_row(t, a.x, a.z, b.x, b.z, n, r);
        if r / 2 == c {
            assert(crate::frame_laws::selects(a.x, a.z, r) == axis_selects(control, r));
            assert(!crate::frame_laws::selects(b.x, b.z, r));
            lemma_axis_commutes(t, n, target, k, r);
        } else if r / 2 == k {
            assert(crate::frame_laws::selects(b.x, b.z, r) == axis_selects(target, r));
            assert(!crate::frame_laws::selects(a.x, a.z, r));
        } else {
            assert(!crate::frame_laws::selects(a.x, a.z, r));
            assert(!crate::frame_laws::selects(b.x, b.z, r));
        }
    }
    assert(u =~= v);
    assert(!a.anticommutes(b)) by {
        lemma_disjoint_dot(a.z, b.x, c);
        lemma_disjoint_dot(a.x, b.z, c);
    }
    crate::frame_laws::law_controlled_pauli(t, a, b, n);
}

proof fn lemma_disjoint_dot(a: Seq<bool>, b: Seq<bool>, c: int)
    requires
        a.len() == b.len(),
        forall|i: int| 0 <= i < a.len() && i != c ==> !#[trigger] a[i],
        0 <= c < a.len(),
        !b[c],
    ensures
        !crate::pauli::dot(a, b),
{
    crate::bits::lemma_xor_below_tail(|i: int| a[i] && b[i], 0, a.len() as int);
}

/// Rows of one qubit commute with an axis of another.
#[verifier::rlimit(60)]
proof fn lemma_axis_commutes(t: Seq<PauliOp>, n: int, axis: PauliBasis, k: int, r: int)
    requires
        clifford(t, n),
        0 <= k < n,
        0 <= r < 2 * n,
        r / 2 != k,
    ensures
        t[r].times(axis_row(t, axis, k)) == axis_row(t, axis, k).times(t[r]),
{
    let x = t[2 * k];
    let z = t[2 * k + 1];
    let p = t[r];
    let f = axis_row(t, axis, k);
    assert(x.on(n) && z.on(n) && p.on(n));
    assert(!p.anticommutes(x));
    assert(!p.anticommutes(z));
    lemma_anticommutes_times(n, x, z, p);
    assert(!p.anticommutes(f));
    assert(f.on(n));
    lemma_times_exchange(n, p, f);
    let m = f.times(p);
    assert(m.on(n));
    lemma_unshifted(n, m);
}

} // verus!
