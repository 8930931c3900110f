//! What every operation on a Clifford tableau keeps, and how the operations
//! relate to one another.
use vstd::prelude::*;
use crate::bits::{lemma_xor_below_ext, lemma_xor_below_tail, xor_below};
use crate::frame::{
    fold_rows, identity_tableau, image_of, map_half, preimage_of, preimage_op, resized_op,
    resized_tableau, right_exp_row, row_product, tableau_controlled, tableau_cx, tableau_cz,
    tableau_h, tableau_pauli, tableau_right_exp, tableau_right_z, tableau_root_x, tableau_root_z,
    tableau_swap, tableau_x, tableau_y, tableau_z,
};
use crate::pauli::{
    bit01, dot, identity_op, lemma_anticommutes_symmetric, lemma_anticommutes_times,
    lemma_dot_symmetric, lemma_dot_unit, lemma_dot_zero, lemma_shifted_twice, lemma_times_associative,
    lemma_times_exchange, lemma_times_hermitian, lemma_times_identity, lemma_times_on, lemma_times_shifted,
    lemma_times_square, lemma_y_count_parity, x_op, xor_bits, y_count, z_op, PauliOp,
};

verus! {

/// `2n` operators on `n` qubits.
pub open spec fn tableau_on(t: Seq<PauliOp>, n: int) -> bool {
    &&& 0 <= n
    &&& t.len() == 2 * n
    &&& forall|r: int| 0 <= r < 2 * n ==> (#[trigger] t[r]).on(n)
}

/// Each row equals its adjoint.
pub open spec fn rows_hermitian(t: Seq<PauliOp>) -> bool {
    forall|r: int| 0 <= r < t.len() ==> (#[trigger] t[r]).hermitian()
}

/// The rows commute as the basis operators do: only the two rows of one qubit
/// anticommute.
pub open spec fn rows_paired(t: Seq<PauliOp>) -> bool {
    forall|i: int, j: int|
        0 <= i < t.len() && 0 <= j < t.len() ==> #[trigger] t[i].anticommutes(t[j]) == (i / 2 == j / 2
            && i != j)
}

/// Only multiples of the identity commute with every row.
pub open spec fn rows_faithful(t: Seq<PauliOp>, n: int) -> bool {
    forall|p: PauliOp|
        #![trigger p.on(n)]
        p.on(n) && (forall|r: int| 0 <= r < t.len() ==> !p.anticommutes(#[trigger] t[r]))
            ==> p.scalar()
}

/// The tableau of a Clifford: the preimages of the Pauli basis under some
/// unitary conjugation.
pub open spec fn clifford(t: Seq<PauliOp>, n: int) -> bool {
    tableau_on(t, n) && rows_hermitian(t) && rows_paired(t) && rows_faithful(t, n)
}

/// Whether the basis operator of row `r` anticommutes with the Pauli that has
/// these bits.
pub open spec fn selects(x: Seq<bool>, z: Seq<bool>, r: int) -> bool {
    if r % 2 == 1 {
        x[r / 2]
    } else {
        z[r / 2]
    }
}

broadcast proof fn lemma_anti_times_left(p: PauliOp, q: PauliOp, r: PauliOp)
    requires
        p.on(p.x.len() as int),
        q.on(p.x.len() as int),
        r.on(p.x.len() as int),
    ensures
        #[trigger] p.times(q).anticommutes(r) == (p.anticommutes(r) != q.anticommutes(r)),
{
    lemma_anticommutes_times(p.x.len() as int, p, q, r);
}

broadcast proof fn lemma_anti_times_right(p: PauliOp, q: PauliOp, r: PauliOp)
    requires
        p.on(p.x.len() as int),
        q.on(p.x.len() as int),
        r.on(p.x.len() as int),
    ensures
        #[trigger] r.anticommutes(p.times(q)) == (r.anticommutes(p) != r.anticommutes(q)),
{
    lemma_anticommutes_times(p.x.len() as int, p, q, r);
}

#[verifier::rlimit(60)]
proof fn lemma_shift_anti(p: PauliOp, k: int, r: PauliOp)
    ensures
        p.shifted(k).anticommutes(r) == p.anticommutes(r),
        r.anticommutes(p.shifted(k)) == r.anticommutes(p),
{
}

// ---------------------------------------------------------------------------
// Every operation keeps the tableau a Clifford's
// ---------------------------------------------------------------------------
/// The identity tableau is a Clifford's.
#[verifier::rlimit(60)]
pub proof fn law_identity_is_clifford(n: int)
    requires
        0 <= n,
    ensures
        clifford(identity_tableau(n), n),
{
    let t = identity_tableau(n);
    assert forall|i: int, j: int| 0 <= i < t.len() && 0 <= j < t.len() implies #[trigger] t[i].anticommutes(
        t[j],
    ) == (i / 2 == j / 2 && i != j) by {
        let a = t[i];
        let b = t[j];
        if i % 2 == 0 {
            lemma_dot_zero(a.z, b.x);
            if j % 2 == 0 {
                lemma_dot_zero(a.x, b.z);
            } else {
                lemma_dot_unit(a.x, b.z, j / 2);
            }
        } else {
            lemma_dot_zero(a.x, b.z);
            if j % 2 == 1 {
                lemma_dot_zero(a.z, b.x);
            } else {
                lemma_dot_unit(a.z, b.x, j / 2);
            }
        }
    }
    assert forall|r: int| 0 <= r < t.len() implies (#[trigger] t[r]).hermitian() by {
        lemma_dot_zero(t[r].x, t[r].z);
    }
    assert forall|p: PauliOp|
        #![trigger p.on(n)]
        p.on(n) && (forall|r: int| 0 <= r < t.len() ==> !p.anticommutes(#[trigger] t[r])) implies p.scalar() by {
        assert forall|i: int| 0 <= i < n implies !#[trigger] p.x[i] && !p.z[i] by {
            assert(!p.anticommutes(t[2 * i]));
            assert(!p.anticommutes(t[2 * i + 1]));
            lemma_dot_unit(p.z, t[2 * i].x, i);
            lemma_dot_unit(p.x, t[2 * i + 1].z, i);
            lemma_dot_zero(p.x, t[2 * i].z);
            lemma_dot_zero(p.z, t[2 * i + 1].x);
        }
        assert forall|i: int| 0 <= i < n implies !#[trigger] p.z[i] by {
            assert(!p.x[i]);
        }
    }
}

/// A tableau whose rows each commute with exactly what the old ones did and
/// generate the same operators is still a Clifford's.
#[verifier::rlimit(60)]
proof fn lemma_faithful_from(t: Seq<PauliOp>, u: Seq<PauliOp>, n: int)
    requires
        tableau_on(t, n),
        tableau_on(u, n),
        rows_faithful(t, n),
        forall|p: PauliOp|
            #![trigger p.on(n)]
            p.on(n) && (forall|r: int| 0 <= r < u.len() ==> !p.anticommutes(#[trigger] u[r])) ==> (forall|r: int|
                0 <= r < t.len() ==> !p.anticommutes(#[trigger] t[r])),
    ensures
        rows_faithful(u, n),
{
}

/// Permuting the rows so that pairs stay pairs keeps a Clifford tableau one.
#[verifier::rlimit(60)]
proof fn lemma_permuted_clifford(t: Seq<PauliOp>, u: Seq<PauliOp>, n: int, from: spec_fn(int) -> int)
    requires
        clifford(t, n),
        u.len() == t.len(),
        forall|r: int| 0 <= r < 2 * n ==> 0 <= #[trigger] from(r) < 2 * n && u[r] == t[from(r)],
        forall|r: int| 0 <= r < 2 * n ==> #[trigger] from(from(r)) == r,
        forall|i: int, j: int|
            #![trigger from(i), from(j)]
            0 <= i < 2 * n && 0 <= j < 2 * n ==> ((from(i) / 2 == from(j) / 2) == (i / 2 == j / 2)),
    ensures
        clifford(u, n),
{
    assert forall|r: int| 0 <= r < 2 * n implies (#[trigger] u[r]).on(n) && u[r].hermitian() by {
        assert(u[r] == t[from(r)]);
    }
    assert forall|i: int, j: int| 0 <= i < u.len() && 0 <= j < u.len() implies #[trigger] u[i].anticommutes(
        u[j],
    ) == (i / 2 == j / 2 && i != j) by {
        assert(u[i] == t[from(i)] && u[j] == t[from(j)]);
        assert(t[from(i)].anticommutes(t[from(j)]) == (from(i) / 2 == from(j) / 2 && from(i) != from(
            j,
        )));
        assert(from(from(i)) == i && from(from(j)) == j);
    }
    assert forall|p: PauliOp|
        #![trigger p.on(n)]
        p.on(n) && (forall|r: int| 0 <= r < u.len() ==> !p.anticommutes(#[trigger] u[r])) implies (forall|r: int|
        0 <= r < t.len() ==> !p.anticommutes(#[trigger] t[r])) by {
        assert forall|r: int| 0 <= r < t.len() implies !p.anticommutes(#[trigger] t[r]) by {
            assert(from(from(r)) == r);
            assert(u[from(r)] == t[from(from(r))]);
        }
    }
    lemma_faithful_from(t, u, n);
}

/// `H` keeps a Clifford tableau one, and twice is nothing.
#[verifier::rlimit(60)]
pub proof fn law_h(t: Seq<PauliOp>, n: int, q: int)
    requires
        clifford(t, n),
        0 <= q < n,
    ensures
        clifford(tableau_h(t, q), n),
        tableau_h(tableau_h(t, q), q) == t,
{
    let u = tableau_h(t, q);
    assert(tableau_h(u, q) =~= t);
    let from = |r: int|
        if r == 2 * q {
            2 * q + 1
        } else if r == 2 * q + 1 {
            2 * q
        } else {
            r
        };
    lemma_permuted_clifford(t, u, n, from);
}

/// Replacing a row by `i^delta` times its product with another row, when the
/// result commutes as the old row did.
#[verifier::rlimit(60)]
proof fn lemma_row_product_clifford(t: Seq<PauliOp>, n: int, d: int, s: int, delta: int)
    requires
        clifford(t, n),
        0 <= d < 2 * n,
        0 <= s < 2 * n,
        d != s,
        d / 2 == s / 2,
        delta == 1 || delta == 3,
    ensures
        clifford(t.update(d, t[s].times(t[d]).shifted(delta)), n),
{
    broadcast use {lemma_anti_times_left, lemma_anti_times_right};

    let u = t.update(d, t[s].times(t[d]).shifted(delta));
    let product = t[s].times(t[d]);
    assert(t[s].anticommutes(t[d]));
    lemma_times_hermitian(n, t[s], t[d]);
    assert forall|r: int| 0 <= r < 2 * n implies product.anticommutes(#[trigger] t[r]) == (t[s].anticommutes(
        t[r],
    ) != t[d].anticommutes(t[r])) by {}
    assert forall|i: int, j: int| 0 <= i < u.len() && 0 <= j < u.len() implies #[trigger] u[i].anticommutes(
        u[j],
    ) == (i / 2 == j / 2 && i != j) by {
        lemma_shift_anti(product, delta, u[j]);
        lemma_shift_anti(product, delta, u[i]);
        lemma_anticommutes_symmetric(n, u[i], u[j]);
        if i == d && j == d {
        } else if i == d {
            assert(t[s].anticommutes(t[j]) == (s / 2 == j / 2 && s != j));
            assert(t[d].anticommutes(t[j]) == (d / 2 == j / 2 && d != j));
        } else if j == d {
            assert(t[i].anticommutes(product) == (t[i].anticommutes(t[s]) != t[i].anticommutes(t[d])));
            assert(t[i].anticommutes(t[s]) == (i / 2 == s / 2 && i != s));
            assert(t[i].anticommutes(t[d]) == (i / 2 == d / 2 && i != d));
        }
    }
    assert forall|p: PauliOp|
        #![trigger p.on(n)]
        p.on(n) && (forall|r: int| 0 <= r < u.len() ==> !p.anticommutes(#[trigger] u[r])) implies (forall|r: int|
        0 <= r < t.len() ==> !p.anticommutes(#[trigger] t[r])) by {
        assert forall|r: int| 0 <= r < t.len() implies !p.anticommutes(#[trigger] t[r]) by {
            assert(!p.anticommutes(u[r]));
            assert(!p.anticommutes(u[s]));
            if r == d {
                lemma_shift_anti(product, delta, p);
                assert(p.anticommutes(product) == (p.anticommutes(t[s]) != p.anticommutes(t[d])));
            }
        }
    }
    lemma_faithful_from(t, u, n);
}

/// `√Z` and `√Z†` keep a Clifford tableau one, and undo each other.
#[verifier::rlimit(60)]
pub proof fn law_root_z(t: Seq<PauliOp>, n: int, q: int, delta: int)
    requires
        clifford(t, n),
        0 <= q < n,
        delta == 1 || delta == 3,
    ensures
        clifford(tableau_root_z(t, q, delta), n),
        tableau_root_z(tableau_root_z(t, q, delta), q, 4 - delta) == t,
        tableau_root_z(tableau_root_z(t, q, delta), q, delta) == tableau_z(t, q),
{
    lemma_row_product_clifford(t, n, 2 * q, 2 * q + 1, delta);
    let x = t[2 * q];
    lemma_root_algebra(n, t[2 * q + 1], x, delta);
    assert(tableau_root_z(tableau_root_z(t, q, delta), q, 4 - delta) =~= t);
    assert(tableau_root_z(tableau_root_z(t, q, delta), q, delta) =~= tableau_z(t, q));
}

/// A Hermitian factor applied twice with a quarter phase each time.
#[verifier::rlimit(60)]
proof fn lemma_root_algebra(n: int, p: PauliOp, q: PauliOp, delta: int)
    requires
        p.on(n),
        q.on(n),
        p.hermitian(),
        delta == 1 || delta == 3,
    ensures
        p.times(p.times(q).shifted(delta)).shifted(4 - delta) == q,
        p.times(p.times(q).shifted(delta)).shifted(delta) == q.shifted(2),
{
    lemma_cancel(n, p, q);
    lemma_times_shifted(n, p, p.times(q), delta);
    let w = p.times(p.times(q).shifted(delta));
    assert(w == q.shifted(delta));
}

/// `√X` and `√X†` keep a Clifford tableau one, and undo each other.
#[verifier::rlimit(60)]
pub proof fn law_root_x(t: Seq<PauliOp>, n: int, q: int, delta: int)
    requires
        clifford(t, n),
        0 <= q < n,
        delta == 1 || delta == 3,
    ensures
        clifford(tableau_root_x(t, q, delta), n),
        tableau_root_x(tableau_root_x(t, q, delta), q, 4 - delta) == t,
        tableau_root_x(tableau_root_x(t, q, delta), q, delta) == tableau_x(t, q),
{
    lemma_row_product_clifford(t, n, 2 * q + 1, 2 * q, delta);
    let z = t[2 * q + 1];
    lemma_root_algebra(n, t[2 * q], z, delta);
    assert(tableau_root_x(tableau_root_x(t, q, delta), q, 4 - delta) =~= t);
    assert(tableau_root_x(tableau_root_x(t, q, delta), q, delta) =~= tableau_x(t, q));
}

/// A tableau that differs from a Clifford's only in signs of rows is a
/// Clifford's.
#[verifier::rlimit(60)]
proof fn lemma_signs_clifford(t: Seq<PauliOp>, u: Seq<PauliOp>, n: int)
    requires
        clifford(t, n),
        u.len() == t.len(),
        forall|r: int| 0 <= r < t.len() ==> #[trigger] u[r] == t[r] || u[r] == t[r].shifted(2),
    ensures
        clifford(u, n),
{
    assert forall|r: int| 0 <= r < u.len() implies (#[trigger] u[r]).on(n) && u[r].hermitian() by {
        assert(t[r].on(n) && t[r].hermitian());
    }
    assert forall|i: int, j: int| 0 <= i < u.len() && 0 <= j < u.len() implies #[trigger] u[i].anticommutes(
        u[j],
    ) == (i / 2 == j / 2 && i != j) by {
        assert(t[i].anticommutes(t[j]) == (i / 2 == j / 2 && i != j));
        assert(u[i].x == t[i].x && u[i].z == t[i].z && u[j].x == t[j].x && u[j].z == t[j].z);
    }
    assert forall|p: PauliOp|
        #![trigger p.on(n)]
        p.on(n) && (forall|r: int| 0 <= r < u.len() ==> !p.anticommutes(#[trigger] u[r])) implies (forall|r: int|
        0 <= r < t.len() ==> !p.anticommutes(#[trigger] t[r])) by {
        assert forall|r: int| 0 <= r < t.len() implies !p.anticommutes(#[trigger] t[r]) by {
            assert(!p.anticommutes(u[r]));
        }
    }
    lemma_faithful_from(t, u, n);
}

/// The single-qubit Paulis keep a Clifford tableau one, and twice is nothing.
#[verifier::rlimit(60)]
pub proof fn law_pauli_gates(t: Seq<PauliOp>, n: int, q: int)
    requires
        clifford(t, n),
        0 <= q < n,
    ensures
        clifford(tableau_x(t, q), n),
        clifford(tableau_y(t, q), n),
        clifford(tableau_z(t, q), n),
        tableau_x(tableau_x(t, q), q) == t,
        tableau_y(tableau_y(t, q), q) == t,
        tableau_z(tableau_z(t, q), q) == t,
{
    let x = t[2 * q];
    let z = t[2 * q + 1];
    assert(x.on(n) && z.on(n));
    assert(x.shifted(2).shifted(2) == x);
    assert(z.shifted(2).shifted(2) == z);
    assert(clifford(tableau_x(t, q), n)) by {
        lemma_signs_clifford(t, tableau_x(t, q), n);
    }
    assert(clifford(tableau_z(t, q), n)) by {
        lemma_signs_clifford(t, tableau_z(t, q), n);
    }
    assert(clifford(tableau_y(t, q), n)) by {
        lemma_signs_clifford(t, tableau_y(t, q), n);
    }
    assert(tableau_x(tableau_x(t, q), q) =~= t);
    assert(tableau_y(tableau_y(t, q), q) =~= t);
    assert(tableau_z(tableau_z(t, q), q) =~= t);
}

/// Applying a Pauli string keeps a Clifford tableau one, and twice is nothing.
#[verifier::rlimit(60)]
pub proof fn law_pauli_string(t: Seq<PauliOp>, n: int, x: Seq<bool>, z: Seq<bool>)
    requires
        clifford(t, n),
        x.len() == n,
        z.len() == n,
    ensures
        clifford(tableau_pauli(t, x, z), n),
        tableau_pauli(tableau_pauli(t, x, z), x, z) == t,
{
    let u = tableau_pauli(t, x, z);
    lemma_signs_clifford(t, u, n);
    let v = tableau_pauli(u, x, z);
    assert forall|r: int| 0 <= r < t.len() implies v[r] == t[r] by {
        assert(t[r].on(n));
        assert(t[r].shifted(2).shifted(2) =~= t[r]);
    }
    assert(v =~= t);
}

/// CNOT keeps a Clifford tableau one, and twice is nothing.
#[verifier::rlimit(60)]
pub proof fn law_cx(t: Seq<PauliOp>, n: int, c: int, k: int)
    requires
        clifford(t, n),
        0 <= c < n,
        0 <= k < n,
        c != k,
    ensures
        clifford(tableau_cx(t, c, k), n),
        tableau_cx(tableau_cx(t, c, k), c, k) == t,
{
    lemma_two_products_clifford(t, n, 2 * c, 2 * k, 2 * k + 1, 2 * c + 1);
    let u = tableau_cx(t, c, k);
    lemma_cancel(n, t[2 * k], t[2 * c]);
    lemma_cancel(n, t[2 * c + 1], t[2 * k + 1]);
    assert(tableau_cx(u, c, k) =~= t);
}

/// CZ keeps a Clifford tableau one, and twice is nothing.
#[verifier::rlimit(60)]
pub proof fn law_cz(t: Seq<PauliOp>, n: int, a: int, b: int)
    requires
        clifford(t, n),
        0 <= a < n,
        0 <= b < n,
        a != b,
    ensures
        clifford(tableau_cz(t, a, b), n),
        tableau_cz(tableau_cz(t, a, b), a, b) == t,
        tableau_cz(t, a, b) == tableau_cz(t, b, a),
{
    lemma_two_products_clifford(t, n, 2 * a, 2 * b + 1, 2 * b, 2 * a + 1);
    let u = tableau_cz(t, a, b);
    lemma_cancel(n, t[2 * b + 1], t[2 * a]);
    lemma_cancel(n, t[2 * a + 1], t[2 * b]);
    assert(tableau_cz(u, a, b) =~= t);
    assert(tableau_cz(t, a, b) =~= tableau_cz(t, b, a));
}

/// A Hermitian factor cancels against itself.
#[verifier::rlimit(60)]
proof fn lemma_cancel(n: int, p: PauliOp, q: PauliOp)
    requires
        p.on(n),
        q.on(n),
        p.hermitian(),
    ensures
        p.times(p.times(q)) == q,
{
    lemma_times_square(n, p);
    lemma_times_associative(n, p, p, q);
    lemma_times_identity(n, q);
}

/// Multiplying `t[s1]` into `t[d1]` and `t[s2]` into `t[d2]`, where the pairs
/// are linked so that the commutation pattern survives.
#[verifier::rlimit(60)]
proof fn lemma_two_products_clifford(t: Seq<PauliOp>, n: int, d1: int, s1: int, d2: int, s2: int)
    requires
        clifford(t, n),
        0 <= d1 < 2 * n,
        0 <= s1 < 2 * n,
        0 <= d2 < 2 * n,
        0 <= s2 < 2 * n,
        d1 / 2 == s2 / 2,
        d2 / 2 == s1 / 2,
        d1 / 2 != d2 / 2,
        d1 != s2,
        d2 != s1,
    ensures
        clifford(t.update(d1, t[s1].times(t[d1])).update(d2, t[s2].times(t[d2])), n),
{
    broadcast use {lemma_anti_times_left, lemma_anti_times_right};

    let p1 = t[s1].times(t[d1]);
    let p2 = t[s2].times(t[d2]);
    let u = t.update(d1, p1).update(d2, p2);
    assert(!t[s1].anticommutes(t[d1]));
    assert(!t[s2].anticommutes(t[d2]));
    lemma_times_hermitian(n, t[s1], t[d1]);
    lemma_times_hermitian(n, t[s2], t[d2]);
    assert forall|i: int, j: int| 0 <= i < u.len() && 0 <= j < u.len() implies #[trigger] u[i].anticommutes(
        u[j],
    ) == (i / 2 == j / 2 && i != j) by {
        lemma_anticommutes_symmetric(n, u[i], u[j]);
        assert(t[i].anticommutes(t[j]) == (i / 2 == j / 2 && i != j));
        assert(t[s1].anticommutes(t[j]) == (s1 / 2 == j / 2 && s1 != j));
        assert(t[d1].anticommutes(t[j]) == (d1 / 2 == j / 2 && d1 != j));
        assert(t[s2].anticommutes(t[j]) == (s2 / 2 == j / 2 && s2 != j));
        assert(t[d2].anticommutes(t[j]) == (d2 / 2 == j / 2 && d2 != j));
        assert(t[i].anticommutes(t[s1]) == (i / 2 == s1 / 2 && i != s1));
        assert(t[i].anticommutes(t[d1]) == (i / 2 == d1 / 2 && i != d1));
        assert(t[i].anticommutes(t[s2]) == (i / 2 == s2 / 2 && i != s2));
        assert(t[i].anticommutes(t[d2]) == (i / 2 == d2 / 2 && i != d2));
        assert(p1.anticommutes(t[j]) == (t[s1].anticommutes(t[j]) != t[d1].anticommutes(t[j])));
        assert(p2.anticommutes(t[j]) == (t[s2].anticommutes(t[j]) != t[d2].anticommutes(t[j])));
        assert(t[i].anticommutes(p1) == (t[i].anticommutes(t[s1]) != t[i].anticommutes(t[d1])));
        assert(t[i].anticommutes(p2) == (t[i].anticommutes(t[s2]) != t[i].anticommutes(t[d2])));
        assert(p1.anticommutes(p2) == (p1.anticommutes(t[s2]) != p1.anticommutes(t[d2])));
        assert(p2.anticommutes(p1) == (p2.anticommutes(t[s1]) != p2.anticommutes(t[d1])));
        assert(p1.anticommutes(t[s2]) == (t[s1].anticommutes(t[s2]) != t[d1].anticommutes(t[s2])));
        assert(p1.anticommutes(t[d2]) == (t[s1].anticommutes(t[d2]) != t[d1].anticommutes(t[d2])));
        assert(p2.anticommutes(t[s1]) == (t[s2].anticommutes(t[s1]) != t[d2].anticommutes(t[s1])));
        assert(p2.anticommutes(t[d1]) == (t[s2].anticommutes(t[d1]) != t[d2].anticommutes(t[d1])));
    }
    assert forall|p: PauliOp|
        #![trigger p.on(n)]
        p.on(n) && (forall|r: int| 0 <= r < u.len() ==> !p.anticommutes(#[trigger] u[r])) implies (forall|r: int|
        0 <= r < t.len() ==> !p.anticommutes(#[trigger] t[r])) by {
        assert forall|r: int| 0 <= r < t.len() implies !p.anticommutes(#[trigger] t[r]) by {
            assert(!p.anticommutes(u[r]));
            assert(!p.anticommutes(u[s1]));
            assert(!p.anticommutes(u[s2]));
            assert(p.anticommutes(p1) == (p.anticommutes(t[s1]) != p.anticommutes(t[d1])));
            assert(p.anticommutes(p2) == (p.anticommutes(t[s2]) != p.anticommutes(t[d2])));
        }
    }
    lemma_faithful_from(t, u, n);
}

/// SWAP keeps a Clifford tableau one, and twice is nothing.
#[verifier::rlimit(60)]
pub proof fn law_swap(t: Seq<PauliOp>, n: int, a: int, b: int)
    requires
        clifford(t, n),
        0 <= a < n,
        0 <= b < n,
    ensures
        clifford(tableau_swap(t, a, b), n),
        tableau_swap(tableau_swap(t, a, b), a, b) == t,
        tableau_swap(t, a, b) == tableau_swap(t, b, a),
{
    let u = tableau_swap(t, a, b);
    assert(tableau_swap(u, a, b) == t && u == tableau_swap(t, b, a)) by {
        lemma_swap_algebra(t, n, a, b);
    }
    lemma_swap_rows(t, n, a, b);
    lemma_swap_source(n, a, b);
    lemma_permuted_clifford(t, u, n, swap_source(a, b));
}

proof fn lemma_swap_algebra(t: Seq<PauliOp>, n: int, a: int, b: int)
    requires
        t.len() == 2 * n,
        0 <= a < n,
        0 <= b < n,
    ensures
        tableau_swap(tableau_swap(t, a, b), a, b) == t,
        tableau_swap(t, a, b) == tableau_swap(t, b, a),
{
    assert(tableau_swap(tableau_swap(t, a, b), a, b) =~= t);
    assert(tableau_swap(t, a, b) =~= tableau_swap(t, b, a));
}

proof fn lemma_swap_source(n: int, a: int, b: int)
    requires
        0 <= a < n,
        0 <= b < n,
    ensures
        forall|r: int| 0 <= r < 2 * n ==> #[trigger] swap_source(a, b)(swap_source(a, b)(r)) == r,
        forall|i: int, j: int|
            #![trigger swap_source(a, b)(i), swap_source(a, b)(j)]
            0 <= i < 2 * n && 0 <= j < 2 * n ==> ((swap_source(a, b)(i) / 2 == swap_source(a, b)(j)
                / 2) == (i / 2 == j / 2)),
{
}

/// The row that SWAP moves to `r`.
spec fn swap_source(a: int, b: int) -> spec_fn(int) -> int {
    |r: int|
        if r / 2 == a {
            2 * b + r % 2
        } else if r / 2 == b {
            2 * a + r % 2
        } else {
            r
        }
}

proof fn lemma_swap_rows(t: Seq<PauliOp>, n: int, a: int, b: int)
    requires
        t.len() == 2 * n,
        0 <= a < n,
        0 <= b < n,
    ensures
        tableau_swap(t, a, b).len() == 2 * n,
        forall|r: int|
            0 <= r < 2 * n ==> 0 <= #[trigger] swap_source(a, b)(r) < 2 * n && tableau_swap(t, a, b)[r]
                == t[swap_source(a, b)(r)],
{
}

/// Right multiplication by `exp(iπ/4·g)` keeps a Clifford tableau one.
#[verifier::rlimit(60)]
pub proof fn law_right_exp(t: Seq<PauliOp>, n: int, g: PauliOp)
    requires
        clifford(t, n),
        g.on(n),
        g.hermitian(),
    ensures
        clifford(tableau_right_exp(t, g), n),
{
    broadcast use {lemma_anti_times_left, lemma_anti_times_right};

    let u = tableau_right_exp(t, g);
    lemma_anticommutes_symmetric(n, g, g);
    assert forall|r: int| 0 <= r < u.len() implies (#[trigger] u[r]).on(n) && u[r].hermitian() by {
        lemma_times_hermitian(n, t[r], g);
    }
    assert forall|i: int, j: int| 0 <= i < u.len() && 0 <= j < u.len() implies #[trigger] u[i].anticommutes(
        u[j],
    ) == (i / 2 == j / 2 && i != j) by {
        let a = t[i];
        let b = t[j];
        assert(a.anticommutes(b) == (i / 2 == j / 2 && i != j));
        lemma_shift_anti(a.times(g), 1, u[j]);
        lemma_shift_anti(b.times(g), 1, a);
        lemma_shift_anti(b.times(g), 1, a.times(g));
        lemma_anticommutes_symmetric(n, a, g);
        lemma_anticommutes_symmetric(n, b, g);
        assert(a.times(g).anticommutes(b) == (a.anticommutes(b) != g.anticommutes(b)));
        assert(a.anticommutes(b.times(g)) == (a.anticommutes(b) != a.anticommutes(g)));
        assert(a.times(g).anticommutes(b.times(g)) == (a.anticommutes(b.times(g)) != g.anticommutes(
            b.times(g),
        )));
        assert(g.anticommutes(b.times(g)) == (g.anticommutes(b) != g.anticommutes(g)));
    }
    assert forall|p: PauliOp|
        #![trigger p.on(n)]
        p.on(n) && (forall|r: int| 0 <= r < u.len() ==> !p.anticommutes(#[trigger] u[r])) implies p.scalar() by {
        let w = if p.anticommutes(g) {
            p.times(g)
        } else {
            p
        };
        assert(w.on(n));
        assert forall|r: int| 0 <= r < t.len() implies !w.anticommutes(#[trigger] t[r]) by {
            assert(!p.anticommutes(u[r]));
            lemma_shift_anti(t[r].times(g), 1, p);
            lemma_anticommutes_symmetric(n, t[r], g);
            assert(p.anticommutes(t[r].times(g)) == (p.anticommutes(t[r]) != p.anticommutes(g)));
            assert(p.times(g).anticommutes(t[r]) == (p.anticommutes(t[r]) != g.anticommutes(t[r])));
        }
        assert(w.scalar());
        if p.anticommutes(g) {
            // Then p agrees with g up to a phase, which commutes with g.
            assert forall|i: int| 0 <= i < n implies #[trigger] p.x[i] == g.x[i] by {
                assert(!w.x[i]);
            }
            assert forall|i: int| 0 <= i < n implies #[trigger] p.z[i] == g.z[i] by {
                assert(!w.z[i]);
            }
            assert(p.x =~= g.x);
            assert(p.z =~= g.z);
            assert(false);
        }
    }
}

/// Right multiplication by `Z_pivot` keeps a Clifford tableau one, and twice is
/// nothing.
#[verifier::rlimit(60)]
pub proof fn law_right_z(t: Seq<PauliOp>, n: int, pivot: int)
    requires
        clifford(t, n),
        0 <= pivot < n,
    ensures
        clifford(tableau_right_z(t, pivot), n),
        tableau_right_z(tableau_right_z(t, pivot), pivot) == t,
{
    let u = tableau_right_z(t, pivot);
    lemma_signs_clifford(t, u, n);
    assert forall|r: int| 0 <= r < t.len() implies tableau_right_z(u, pivot)[r] == t[r] by {
        assert(t[r].on(n));
        assert(t[r].shifted(2).shifted(2) =~= t[r]);
    }
    assert(tableau_right_z(u, pivot) =~= t);
}

// ---------------------------------------------------------------------------
// Row products and preimages
// ---------------------------------------------------------------------------
/// The rows of one half whose qubit is set, multiplied in ascending order.
pub open spec fn half_product(t: Seq<PauliOp>, bits: Seq<bool>, half: int, n: int) -> PauliOp {
    fold_rows(identity_op(n), t, bits, half, n)
}

#[verifier::rlimit(60)]
proof fn lemma_fold_on(acc: PauliOp, t: Seq<PauliOp>, bits: Seq<bool>, half: int, k: int, n: int)
    requires
        tableau_on(t, n),
        acc.on(n),
        0 <= k <= n,
        0 <= half < 2,
    ensures
        fold_rows(acc, t, bits, half, k).on(n),
    decreases k,
{
    if k > 0 {
        lemma_fold_on(acc, t, bits, half, k - 1, n);
        assert(t[2 * (k - 1) + half].on(n));
    }
}

/// The fold from `acc` is `acc` times the fold from the identity.
#[verifier::rlimit(60)]
proof fn lemma_fold_acc(acc: PauliOp, t: Seq<PauliOp>, bits: Seq<bool>, half: int, k: int, n: int)
    requires
        tableau_on(t, n),
        acc.on(n),
        0 <= k <= n,
        0 <= half < 2,
    ensures
        fold_rows(acc, t, bits, half, k) == acc.times(fold_rows(identity_op(n), t, bits, half, k)),
    decreases k,
{
    if k > 0 {
        lemma_fold_acc(acc, t, bits, half, k - 1, n);
        lemma_fold_on(identity_op(n), t, bits, half, k - 1, n);
        let row = t[2 * (k - 1) + half];
        assert(row.on(n));
        lemma_times_associative(
            n,
            acc,
            fold_rows(identity_op(n), t, bits, half, k - 1),
            row,
        );
    } else {
        lemma_times_identity(n, acc);
    }
}

/// What a fold anticommutes with, when the rows' own anticommutation with `w`
/// is `c`.
#[verifier::rlimit(60)]
proof fn lemma_fold_anti(
    acc: PauliOp,
    t: Seq<PauliOp>,
    bits: Seq<bool>,
    half: int,
    k: int,
    n: int,
    w: PauliOp,
    c: Seq<bool>,
)
    requires
        tableau_on(t, n),
        acc.on(n),
        w.on(n),
        0 <= k <= n,
        0 <= half < 2,
        forall|i: int| 0 <= i < n ==> t[2 * i + half].anticommutes(w) == #[trigger] c[i],
    ensures
        fold_rows(acc, t, bits, half, k).anticommutes(w) == (acc.anticommutes(w) != xor_below(
            |i: int| bits[i] && c[i],
            k,
        )),
    decreases k,
{
    let f = |i: int| bits[i] && c[i];
    if k > 0 {
        lemma_fold_anti(acc, t, bits, half, k - 1, n, w, c);
        lemma_fold_on(acc, t, bits, half, k - 1, n);
        let row = t[2 * (k - 1) + half];
        assert(row.on(n));
        assert(row.anticommutes(w) == c[k - 1]);
        lemma_anticommutes_times(n, fold_rows(acc, t, bits, half, k - 1), row, w);
    }
}

/// The products of one half and of the other.
#[verifier::rlimit(60)]
proof fn lemma_row_product_split(t: Seq<PauliOp>, x: Seq<bool>, z: Seq<bool>, n: int)
    requires
        tableau_on(t, n),
    ensures
        half_product(t, x, 0, n).on(n),
        half_product(t, z, 1, n).on(n),
        row_product(t, x, z, n) == half_product(t, x, 0, n).times(half_product(t, z, 1, n)),
        row_product(t, x, z, n).on(n),
{
    lemma_fold_on(identity_op(n), t, x, 0, n, n);
    lemma_fold_on(identity_op(n), t, z, 1, n, n);
    lemma_fold_acc(half_product(t, x, 0, n), t, z, 1, n, n);
}

/// A row anticommutes with a half product exactly when its partner is in it.
#[verifier::rlimit(60)]
proof fn lemma_half_product_anti(t: Seq<PauliOp>, bits: Seq<bool>, half: int, n: int, r: int)
    requires
        clifford(t, n),
        bits.len() == n,
        0 <= half < 2,
        0 <= r < 2 * n,
    ensures
        half_product(t, bits, half, n).anticommutes(t[r]) == (r % 2 != half && bits[r / 2]),
        t[r].anticommutes(half_product(t, bits, half, n)) == (r % 2 != half && bits[r / 2]),
{
    let c = Seq::new(n as nat, |i: int| i == r / 2 && r % 2 != half);
    assert forall|i: int| 0 <= i < n implies t[2 * i + half].anticommutes(t[r]) == #[trigger] c[i] by {
        assert(t[2 * i + half].anticommutes(t[r]) == ((2 * i + half) / 2 == r / 2 && 2 * i + half != r));
    }
    lemma_fold_anti(identity_op(n), t, bits, half, n, n, t[r], c);
    lemma_dot_zero(identity_op(n).z, t[r].x);
    lemma_dot_zero(identity_op(n).x, t[r].z);
    let f = |i: int| bits[i] && c[i];
    lemma_fold_on(identity_op(n), t, bits, half, n, n);
    lemma_anticommutes_symmetric(n, half_product(t, bits, half, n), t[r]);
    if r % 2 == half {
        lemma_xor_below_tail(f, 0, n);
    } else {
        lemma_xor_below_tail(f, 0, r / 2);
        assert(xor_below(f, r / 2 + 1) == bits[r / 2]);
        lemma_xor_below_tail(f, r / 2 + 1, n);
    }
}

/// A half product of Hermitian rows that commute is Hermitian.
#[verifier::rlimit(60)]
proof fn lemma_half_product_hermitian(t: Seq<PauliOp>, bits: Seq<bool>, half: int, k: int, n: int)
    requires
        clifford(t, n),
        0 <= half < 2,
        0 <= k <= n,
    ensures
        fold_rows(identity_op(n), t, bits, half, k).on(n),
        fold_rows(identity_op(n), t, bits, half, k).hermitian(),
        forall|i: int|
            0 <= i < n ==> !fold_rows(identity_op(n), t, bits, half, k).anticommutes(
                #[trigger] t[2 * i + half],
            ),
    decreases k,
{
    let id = identity_op(n);
    if k > 0 {
        lemma_half_product_hermitian(t, bits, half, k - 1, n);
        let front = fold_rows(id, t, bits, half, k - 1);
        let row = t[2 * (k - 1) + half];
        assert(row.on(n) && row.hermitian());
        assert(!front.anticommutes(row));
        lemma_times_hermitian(n, front, row);
        assert forall|i: int| 0 <= i < n implies !fold_rows(id, t, bits, half, k).anticommutes(
            #[trigger] t[2 * i + half],
        ) by {
            lemma_anticommutes_times(n, front, row, t[2 * i + half]);
            assert(row.anticommutes(t[2 * i + half]) == ((2 * (k - 1) + half) / 2 == (2 * i + half) / 2
                && 2 * (k - 1) + half != 2 * i + half));
        }
    } else {
        lemma_dot_zero(id.x, id.z);
        assert forall|i: int| 0 <= i < n implies !id.anticommutes(#[trigger] t[2 * i + half]) by {
            lemma_dot_zero(id.z, t[2 * i + half].x);
            lemma_dot_zero(id.x, t[2 * i + half].z);
        }
    }
}

/// The two half products anticommute exactly when the bits overlap oddly.
#[verifier::rlimit(60)]
proof fn lemma_half_products_anti(t: Seq<PauliOp>, x: Seq<bool>, z: Seq<bool>, n: int)
    requires
        clifford(t, n),
        x.len() == n,
        z.len() == n,
    ensures
        half_product(t, x, 0, n).anticommutes(half_product(t, z, 1, n)) == dot(x, z),
        half_product(t, z, 1, n).anticommutes(half_product(t, x, 0, n)) == dot(x, z),
{
    let b = half_product(t, z, 1, n);
    lemma_fold_on(identity_op(n), t, z, 1, n, n);
    lemma_fold_on(identity_op(n), t, x, 0, n, n);
    assert forall|i: int| 0 <= i < n implies t[2 * i + 0].anticommutes(b) == #[trigger] z[i] by {
        lemma_half_product_anti(t, z, 1, n, 2 * i);
    }
    lemma_fold_anti(identity_op(n), t, x, 0, n, n, b, z);
    lemma_dot_zero(identity_op(n).z, b.x);
    lemma_dot_zero(identity_op(n).x, b.z);
    lemma_anticommutes_symmetric(n, half_product(t, x, 0, n), b);
}

/// The preimage of a Hermitian Pauli is Hermitian, and a stored row
/// anticommutes with it exactly when its basis operator anticommutes with the
/// Pauli.
#[verifier::rlimit(60)]
pub proof fn law_preimage_of_pauli(t: Seq<PauliOp>, x: Seq<bool>, z: Seq<bool>, n: int)
    requires
        clifford(t, n),
        x.len() == n,
        z.len() == n,
    ensures
        preimage_of(t, x, z, n).on(n),
        preimage_of(t, x, z, n).hermitian(),
        forall|r: int|
            0 <= r < 2 * n ==> #[trigger] t[r].anticommutes(preimage_of(t, x, z, n)) == selects(x, z, r),
{
    let a = half_product(t, x, 0, n);
    let b = half_product(t, z, 1, n);
    lemma_row_product_split(t, x, z, n);
    lemma_half_product_hermitian(t, x, 0, n, n);
    lemma_half_product_hermitian(t, z, 1, n, n);
    lemma_half_products_anti(t, x, z, n);
    lemma_times_hermitian(n, a, b);
    lemma_y_count_parity(x, z, n);
    let k = y_count(x, z, n);
    let p = a.times(b);
    if k % 2 == 0 {
        assert(p.shifted(k).phase % 2 == p.phase % 2);
    } else {
        assert(p.shifted(k).phase % 2 == p.shifted(1).phase % 2);
    }
    assert forall|r: int| 0 <= r < 2 * n implies #[trigger] t[r].anticommutes(preimage_of(t, x, z, n))
        == selects(x, z, r) by {
        lemma_half_product_anti(t, x, 0, n, r);
        lemma_half_product_anti(t, z, 1, n, r);
        lemma_anticommutes_times(n, a, b, t[r]);
        lemma_shift_anti(p, k, t[r]);
    }
}

/// Preimages commute exactly as the operators do.
#[verifier::rlimit(60)]
pub proof fn law_preimage_keeps_commutation(t: Seq<PauliOp>, p: PauliOp, q: PauliOp, n: int)
    requires
        clifford(t, n),
        p.on(n),
        q.on(n),
    ensures
        preimage_of(t, p.x, p.z, n).anticommutes(preimage_of(t, q.x, q.z, n)) == p.anticommutes(q),
{
    let w = preimage_of(t, q.x, q.z, n);
    law_preimage_of_pauli(t, q.x, q.z, n);
    let a = half_product(t, p.x, 0, n);
    let b = half_product(t, p.z, 1, n);
    lemma_row_product_split(t, p.x, p.z, n);
    assert forall|i: int| 0 <= i < n implies t[2 * i + 0].anticommutes(w) == #[trigger] q.z[i] by {
        assert(t[2 * i].anticommutes(w) == selects(q.x, q.z, 2 * i));
    }
    assert forall|i: int| 0 <= i < n implies t[2 * i + 1].anticommutes(w) == #[trigger] q.x[i] by {
        assert(t[2 * i + 1].anticommutes(w) == selects(q.x, q.z, 2 * i + 1));
    }
    lemma_fold_anti(identity_op(n), t, p.x, 0, n, n, w, q.z);
    lemma_fold_anti(identity_op(n), t, p.z, 1, n, n, w, q.x);
    lemma_dot_zero(identity_op(n).z, w.x);
    lemma_dot_zero(identity_op(n).x, w.z);
    lemma_anticommutes_times(n, a, b, w);
    lemma_shift_anti(row_product(t, p.x, p.z, n), y_count(p.x, p.z, n), w);
}

/// `(p·g)·q`, with `g` moved to the right past `q`.
#[verifier::rlimit(60)]
proof fn lemma_move_right(n: int, p: PauliOp, g: PauliOp, q: PauliOp)
    requires
        p.on(n),
        g.on(n),
        q.on(n),
    ensures
        p.times(g).times(q) == p.times(q).times(g).shifted(2 * bit01(g.anticommutes(q))),
        p.times(q).times(g).on(n),
{
    let k = 2 * bit01(g.anticommutes(q));
    let qg = q.times(g);
    lemma_times_on(n, q, g);
    lemma_times_on(n, p, q);
    lemma_times_on(n, p.times(q), g);
    lemma_times_associative(n, p, g, q);
    lemma_times_exchange(n, g, q);
    lemma_times_shifted(n, p, qg, k);
    lemma_times_associative(n, p, q, g);
}

/// `(m·g)·g` is `m` for a Hermitian `g`.
#[verifier::rlimit(60)]
proof fn lemma_undo(n: int, m: PauliOp, g: PauliOp)
    requires
        m.on(n),
        g.on(n),
        g.hermitian(),
    ensures
        m.times(g).times(g) == m,
{
    lemma_times_associative(n, m, g, g);
    lemma_times_square(n, g);
    lemma_times_identity(n, m);
}

/// The phases of two factors add up.
#[verifier::rlimit(60)]
proof fn lemma_shift_both(n: int, p: PauliOp, q: PauliOp)
    requires
        p.on(n),
        q.on(n),
    ensures
        p.shifted(1).times(q.shifted(1)) == p.times(q).shifted(1).shifted(1),
{
    let a = p.shifted(1);
    assert(a.on(n));
    lemma_times_shifted(n, a, q, 1);
    lemma_times_shifted(n, p, q, 1);
}

proof fn lemma_full_turn(n: int, p: PauliOp)
    requires
        p.on(n),
    ensures
        p.shifted(2).shifted(1).shifted(1) == p,
{
}

/// A commuting factor passes to the right.
#[verifier::rlimit(60)]
proof fn lemma_pass(n: int, p: PauliOp, q: PauliOp, g: PauliOp)
    requires
        p.on(n),
        q.on(n),
        g.on(n),
        !g.anticommutes(q),
    ensures
        p.times(g).times(q) == p.times(q).times(g),
{
    lemma_move_right(n, p, g, q);
    lemma_no_shift(n, p.times(q).times(g));
}

proof fn lemma_no_shift(n: int, p: PauliOp)
    requires
        p.on(n),
    ensures
        p.shifted(0) == p,
{
}

/// A Hermitian factor taken by both sides cancels.
#[verifier::rlimit(60)]
proof fn lemma_both_take(n: int, p: PauliOp, q: PauliOp, g: PauliOp)
    requires
        p.on(n),
        q.on(n),
        g.on(n),
        g.hermitian(),
        !g.anticommutes(q),
    ensures
        p.times(g).times(q.times(g)) == p.times(q),
{
    let pg = p.times(g);
    lemma_times_on(n, p, g);
    lemma_times_on(n, p, q);
    lemma_times_associative(n, pg, q, g);
    lemma_pass(n, p, q, g);
    lemma_undo(n, p.times(q), g);
}

/// Within one half, products follow the XOR of the bits.
#[verifier::rlimit(60)]
proof fn lemma_fold_xor(t: Seq<PauliOp>, a: Seq<bool>, b: Seq<bool>, half: int, k: int, n: int)
    requires
        clifford(t, n),
        a.len() == n,
        b.len() == n,
        0 <= half < 2,
        0 <= k <= n,
    ensures
        fold_rows(identity_op(n), t, xor_bits(a, b), half, k) == fold_rows(
            identity_op(n),
            t,
            a,
            half,
            k,
        ).times(fold_rows(identity_op(n), t, b, half, k)),
    decreases k,
{
    let id = identity_op(n);
    if k > 0 {
        lemma_fold_xor(t, a, b, half, k - 1, n);
        lemma_half_product_hermitian(t, a, half, k - 1, n);
        lemma_half_product_hermitian(t, b, half, k - 1, n);
        let fa = fold_rows(id, t, a, half, k - 1);
        let fb = fold_rows(id, t, b, half, k - 1);
        let row = t[2 * (k - 1) + half];
        assert(row.on(n) && row.hermitian());
        assert(!fb.anticommutes(row));
        lemma_anticommutes_symmetric(n, fb, row);
        if a[k - 1] && b[k - 1] {
            lemma_both_take(n, fa, fb, row);
        } else if a[k - 1] {
            lemma_pass(n, fa, fb, row);
        } else if b[k - 1] {
            lemma_times_associative(n, fa, fb, row);
        }
    } else {
        lemma_times_identity(n, id);
    }
}

/// Taking preimages respects the operator product.
#[verifier::rlimit(60)]
pub proof fn law_preimage_is_a_homomorphism(t: Seq<PauliOp>, p: PauliOp, q: PauliOp, n: int)
    requires
        clifford(t, n),
        p.on(n),
        q.on(n),
    ensures
        preimage_op(t, p.times(q), n) == preimage_op(t, p, n).times(preimage_op(t, q, n)),
        preimage_op(t, identity_op(n), n) == identity_op(n),
{
    let a1 = half_product(t, p.x, 0, n);
    let b1 = half_product(t, p.z, 1, n);
    let a2 = half_product(t, q.x, 0, n);
    let b2 = half_product(t, q.z, 1, n);
    lemma_row_product_split(t, p.x, p.z, n);
    lemma_row_product_split(t, q.x, q.z, n);
    lemma_row_product_split(t, p.times(q).x, p.times(q).z, n);
    lemma_fold_xor(t, p.x, q.x, 0, n, n);
    lemma_fold_xor(t, p.z, q.z, 1, n, n);
    let d = 2 * bit01(dot(p.z, q.x));
    assert(b1.times(a2) == a2.times(b1).shifted(d)) by {
        lemma_times_exchange(n, b1, a2);
        lemma_half_products_anti(t, q.x, p.z, n);
        lemma_dot_symmetric(q.x, p.z);
    }
    lemma_middle_exchange(n, a1, b1, a2, b2, d);
    lemma_product_shifts(n, a1.times(b1), a2.times(b2), p.phase, q.phase);
    let right = a1.times(a2).times(b1.times(b2));
    assert(preimage_op(t, p.times(q), n) == right.shifted(p.times(q).phase));
    lemma_phase_sum(right, d, p.phase, q.phase);
    crate::frame::lemma_fold_skip(identity_op(n), t, identity_op(n).x, 0, 0, n);
    crate::frame::lemma_fold_skip(identity_op(n), t, identity_op(n).z, 1, 0, n);
    assert(preimage_op(t, identity_op(n), n) =~= identity_op(n));
}

/// `a1 b1 a2 b2 = i^d · a1 a2 b1 b2` when exchanging the middle factors costs
/// `i^d`.
#[verifier::rlimit(60)]
proof fn lemma_middle_exchange(
    n: int,
    a1: PauliOp,
    b1: PauliOp,
    a2: PauliOp,
    b2: PauliOp,
    d: int,
)
    requires
        a1.on(n),
        b1.on(n),
        a2.on(n),
        b2.on(n),
        b1.times(a2) == a2.times(b1).shifted(d),
    ensures
        a1.times(b1).times(a2.times(b2)) == a1.times(a2).times(b1.times(b2)).shifted(d),
{
    lemma_times_associative(n, a1, b1, a2.times(b2));
    lemma_times_associative(n, b1, a2, b2);
    lemma_times_shifted(n, a2.times(b1), b2, d);
    lemma_times_associative(n, a2, b1, b2);
    lemma_times_shifted(n, a1, a2.times(b1.times(b2)), d);
    lemma_times_associative(n, a1, a2, b1.times(b2));
}

#[verifier::rlimit(60)]
proof fn lemma_product_shifts(n: int, p: PauliOp, q: PauliOp, j: int, k: int)
    requires
        p.on(n),
        q.on(n),
        0 <= j < 4,
        0 <= k < 4,
    ensures
        p.shifted(j).times(q.shifted(k)) == p.times(q).shifted(j + k),
{
    let a = p.times(q.shifted(k));
    assert(p.shifted(j).times(q.shifted(k)) == a.shifted(j)) by {
        lemma_times_shifted(n, p, q.shifted(k), j);
    }
    let m = p.times(q);
    assert(a == m.shifted(k)) by {
        lemma_times_shifted(n, p, q, k);
    }
    assert(m.shifted(k).shifted(j) == m.shifted(k + j)) by {
        crate::pauli::lemma_shifted_twice(m, k, j);
    }
}

proof fn lemma_phase_sum(p: PauliOp, d: int, j: int, k: int)
    ensures
        p.shifted((j + k + d) % 4) == p.shifted(d).shifted(j + k),
{
}

/// The image of a basis operator is its inverse image: pushing it back through
/// the frame gives the basis operator, sign included.
#[verifier::rlimit(60)]
pub proof fn law_image_inverts_preimage(t: Seq<PauliOp>, n: int, q: int, of_x: bool)
    requires
        clifford(t, n),
        0 <= q < n,
    ensures
        image_of(t, q, of_x, n).on(n),
        preimage_op(t, image_of(t, q, of_x, n), n) == if of_x {
            x_op(n, q)
        } else {
            z_op(n, q)
        },
{
    let image = image_of(t, q, of_x, n);
    let basis = if of_x {
        x_op(n, q)
    } else {
        z_op(n, q)
    };
    let a = half_product(t, image.x, 0, n);
    let b = half_product(t, image.z, 1, n);
    let back = row_product(t, image.x, image.z, n);
    lemma_row_product_split(t, image.x, image.z, n);
    let w = back.times(basis);
    assert(w.on(n));
    assert forall|r: int| 0 <= r < t.len() implies !w.anticommutes(#[trigger] t[r]) by {
        lemma_half_product_anti(t, image.x, 0, n, r);
        lemma_half_product_anti(t, image.z, 1, n, r);
        lemma_anticommutes_times(n, a, b, t[r]);
        lemma_anticommutes_times(n, back, basis, t[r]);
        assert(back.anticommutes(t[r]) == selects(image.x, image.z, r));
        assert(t[r].on(n));
        if of_x {
            lemma_dot_zero(basis.z, t[r].x);
            lemma_dot_unit(t[r].z, basis.x, q);
            assert(basis.anticommutes(t[r]) == t[r].z[q]);
        } else {
            lemma_dot_zero(basis.x, t[r].z);
            lemma_dot_unit(t[r].x, basis.z, q);
            assert(basis.anticommutes(t[r]) == t[r].x[q]);
        }
        assert(r == 2 * (r / 2) + r % 2);
        assert(selects(image.x, image.z, r) == basis.anticommutes(t[r]));
    }
    assert(w.scalar());
    assert forall|i: int| 0 <= i < n implies back.x[i] == #[trigger] basis.x[i] by {
        assert(!w.x[i]);
    }
    assert forall|i: int| 0 <= i < n implies back.z[i] == #[trigger] basis.z[i] by {
        assert(!w.z[i]);
    }
    assert(preimage_op(t, image, n) =~= basis);
}

/// `R·exp(iπ/4·R†PR)` and `exp(iπ/4·P)·R` are the same tableau: right
/// multiplication by the preimage of `P` multiplies exactly the rows whose basis
/// operator anticommutes with `P`.
#[verifier::rlimit(60)]
pub proof fn law_right_exp_of_preimage(t: Seq<PauliOp>, x: Seq<bool>, z: Seq<bool>, n: int)
    requires
        clifford(t, n),
        x.len() == n,
        z.len() == n,
    ensures
        ({
            let g = preimage_of(t, x, z, n);
            let quarter = |p: PauliOp| p.times(g).shifted(1);
            tableau_right_exp(t, g) == map_half(map_half(t, x, 1, quarter), z, 0, quarter)
        }),
{
    let g = preimage_of(t, x, z, n);
    let quarter = |p: PauliOp| p.times(g).shifted(1);
    law_preimage_of_pauli(t, x, z, n);
    let u = map_half(map_half(t, x, 1, quarter), z, 0, quarter);
    assert forall|r: int| 0 <= r < t.len() implies tableau_right_exp(t, g)[r] == u[r] by {
        assert(t[r].anticommutes(g) == selects(x, z, r));
    }
    assert(tableau_right_exp(t, g) =~= u);
}

// ---------------------------------------------------------------------------
// Controlled Paulis
// ---------------------------------------------------------------------------
/// One row of [`tableau_controlled`].
#[verifier::rlimit(60)]
pub proof fn lemma_controlled_row(
    t: Seq<PauliOp>,
    cx: Seq<bool>,
    cz: Seq<bool>,
    tx: Seq<bool>,
    tz: Seq<bool>,
    n: int,
    r: int,
)
    requires
        0 <= r < t.len(),
    ensures
        tableau_controlled(t, cx, cz, tx, tz, n).len() == t.len(),
        ({
            let c = preimage_of(t, cx, cz, n);
            let g = preimage_of(t, tx, tz, n);
            let p = if selects(cx, cz, r) {
                t[r].times(g)
            } else {
                t[r]
            };
            tableau_controlled(t, cx, cz, tx, tz, n)[r] == if selects(tx, tz, r) {
                c.times(p)
            } else {
                p
            }
        }),
{
}

/// One row under a controlled Pauli, in terms of the two preimages.
spec fn controlled_row(p: PauliOp, c: PauliOp, g: PauliOp) -> PauliOp {
    let p1 = if p.anticommutes(c) {
        p.times(g)
    } else {
        p
    };
    if p.anticommutes(g) {
        c.times(p1)
    } else {
        p1
    }
}

/// `c·(p·g)` for an operator `p` that anticommutes with both commuting factors:
/// `p·g` is `i` times a Hermitian operator, and `c` anticommutes with it.
#[verifier::spinoff_prover]
#[verifier::rlimit(60)]
proof fn lemma_double_gain_hermitian(n: int, p: PauliOp, c: PauliOp, g: PauliOp)
    requires
        p.on(n),
        c.on(n),
        g.on(n),
        p.hermitian(),
        c.hermitian(),
        g.hermitian(),
        !c.anticommutes(g),
        p.anticommutes(c),
        p.anticommutes(g),
    ensures
        c.times(p.times(g)).on(n),
        c.times(p.times(g)).hermitian(),
{
    let m = p.times(g);
    let h = m.shifted(1);
    assert(m.on(n) && h.on(n) && h.hermitian()) by {
        lemma_times_hermitian(n, p, g);
    }
    assert(c.anticommutes(h)) by {
        lemma_anticommutes_symmetric(n, c, p);
        lemma_anticommutes_times(n, p, g, c);
        lemma_shift_anti(m, 1, c);
    }
    assert(c.times(h).shifted(3).hermitian() && c.times(h).on(n)) by {
        lemma_times_hermitian(n, c, h);
    }
    let w = c.times(m);
    assert(c.times(h) == w.shifted(1)) by {
        lemma_times_shifted(n, c, m, 1);
    }
    assert(w.on(n));
    assert(w.shifted(1).shifted(3) == w.shifted(4)) by {
        crate::pauli::lemma_shifted_twice(w, 1, 3);
    }
    assert(w.shifted(4) == w);
}

#[verifier::spinoff_prover]
#[verifier::rlimit(60)]
proof fn lemma_controlled_row_hermitian(n: int, p: PauliOp, c: PauliOp, g: PauliOp)
    requires
        p.on(n),
        c.on(n),
        g.on(n),
        p.hermitian(),
        c.hermitian(),
        g.hermitian(),
        !c.anticommutes(g),
    ensures
        controlled_row(p, c, g).on(n),
        controlled_row(p, c, g).hermitian(),
{
    if p.anticommutes(c) && p.anticommutes(g) {
        lemma_double_gain_hermitian(n, p, c, g);
    } else if p.anticommutes(c) {
        lemma_times_hermitian(n, p, g);
    } else if p.anticommutes(g) {
        lemma_anticommutes_symmetric(n, c, p);
        lemma_times_hermitian(n, c, p);
    }
}

#[verifier::rlimit(60)]
proof fn lemma_controlled_row_anti(n: int, p: PauliOp, c: PauliOp, g: PauliOp, w: PauliOp)
    requires
        p.on(n),
        c.on(n),
        g.on(n),
        w.on(n),
    ensures
        w.anticommutes(controlled_row(p, c, g)) == (w.anticommutes(p) != ((p.anticommutes(c)
            && w.anticommutes(g)) != (p.anticommutes(g) && w.anticommutes(c)))),
{
    lemma_anticommutes_times(n, p, g, w);
    lemma_anticommutes_times(n, c, p, w);
    lemma_anticommutes_times(n, c, p.times(g), w);
}

/// Conjugating every row by a controlled pair keeps a Clifford tableau one.
#[verifier::rlimit(60)]
proof fn lemma_controlled_clifford(t: Seq<PauliOp>, u: Seq<PauliOp>, n: int, c: PauliOp, g: PauliOp)
    requires
        clifford(t, n),
        c.on(n),
        g.on(n),
        c.hermitian(),
        g.hermitian(),
        !c.anticommutes(g),
        u.len() == t.len(),
        forall|r: int| 0 <= r < t.len() ==> #[trigger] u[r] == controlled_row(t[r], c, g),
    ensures
        clifford(u, n),
{
    lemma_anticommutes_symmetric(n, c, g);
    lemma_anticommutes_symmetric(n, c, c);
    lemma_anticommutes_symmetric(n, g, g);
    assert forall|r: int| 0 <= r < u.len() implies (#[trigger] u[r]).on(n) && u[r].hermitian() by {
        assert(t[r].on(n) && t[r].hermitian());
        lemma_controlled_row_hermitian(n, t[r], c, g);
    }
    assert forall|i: int, j: int| 0 <= i < u.len() && 0 <= j < u.len() implies #[trigger] u[i].anticommutes(
        u[j],
    ) == (i / 2 == j / 2 && i != j) by {
        let a = t[i];
        let b = t[j];
        assert(a.on(n) && b.on(n) && u[i].on(n) && u[j].on(n));
        assert(a.anticommutes(b) == (i / 2 == j / 2 && i != j));
        lemma_controlled_row_anti(n, b, c, g, u[i]);
        lemma_controlled_row_anti(n, a, c, g, b);
        lemma_controlled_row_anti(n, a, c, g, c);
        lemma_controlled_row_anti(n, a, c, g, g);
        lemma_anticommutes_symmetric(n, u[i], b);
        lemma_anticommutes_symmetric(n, u[i], c);
        lemma_anticommutes_symmetric(n, u[i], g);
        lemma_anticommutes_symmetric(n, a, b);
        lemma_anticommutes_symmetric(n, a, c);
        lemma_anticommutes_symmetric(n, a, g);
    }
    assert forall|p: PauliOp|
        #![trigger p.on(n)]
        p.on(n) && (forall|r: int| 0 <= r < u.len() ==> !p.anticommutes(#[trigger] u[r])) implies p.scalar() by {
        // The operator that would be turned into p commutes with every old row.
        let w = controlled_row(p, c, g);
        assert(w.on(n));
        lemma_controlled_row_anti(n, p, c, g, c);
        lemma_controlled_row_anti(n, p, c, g, g);
        lemma_anticommutes_symmetric(n, p, c);
        lemma_anticommutes_symmetric(n, p, g);
        lemma_anticommutes_symmetric(n, w, c);
        lemma_anticommutes_symmetric(n, w, g);
        assert forall|r: int| 0 <= r < t.len() implies !w.anticommutes(#[trigger] t[r]) by {
            assert(t[r].on(n));
            assert(!p.anticommutes(u[r]));
            lemma_controlled_row_anti(n, t[r], c, g, p);
            lemma_controlled_row_anti(n, p, c, g, t[r]);
            lemma_anticommutes_symmetric(n, t[r], p);
            lemma_anticommutes_symmetric(n, t[r], w);
        }
        assert(w.scalar());
        lemma_scalar_commutes(n, w, c);
        lemma_scalar_commutes(n, w, g);
        assert(!p.anticommutes(c) && !p.anticommutes(g));
    }
}

/// A controlled Pauli with commuting control and target keeps a Clifford
/// tableau one.
#[verifier::rlimit(60)]
pub proof fn law_controlled_pauli(t: Seq<PauliOp>, control: PauliOp, target: PauliOp, n: int)
    requires
        clifford(t, n),
        control.on(n),
        target.on(n),
        !control.anticommutes(target),
    ensures
        clifford(
            tableau_controlled(t, control.x, control.z, target.x, target.z, n),
            n,
        ),
{
    let c = preimage_of(t, control.x, control.z, n);
    let g = preimage_of(t, target.x, target.z, n);
    law_preimage_of_pauli(t, control.x, control.z, n);
    law_preimage_of_pauli(t, target.x, target.z, n);
    law_preimage_keeps_commutation(t, control, target, n);
    let u = tableau_controlled(t, control.x, control.z, target.x, target.z, n);
    assert forall|r: int| 0 <= r < t.len() implies #[trigger] u[r] == controlled_row(t[r], c, g) by {
        lemma_controlled_row(t, control.x, control.z, target.x, target.z, n, r);
        assert(t[r].anticommutes(c) == selects(control.x, control.z, r));
        assert(t[r].anticommutes(g) == selects(target.x, target.z, r));
    }
    lemma_controlled_clifford(t, u, n, c, g);
}

/// A multiple of the identity commutes with everything.
#[verifier::rlimit(60)]
proof fn lemma_scalar_commutes(n: int, p: PauliOp, q: PauliOp)
    requires
        p.on(n),
        q.on(n),
        p.scalar(),
    ensures
        !p.anticommutes(q),
{
    lemma_dot_zero(p.z, q.x);
    lemma_dot_zero(p.x, q.z);
}

/// The preimage of a bare `X_q` or `Z_q` is the stored row.
#[verifier::rlimit(60)]
pub proof fn law_preimage_of_basis(t: Seq<PauliOp>, n: int, q: int)
    requires
        tableau_on(t, n),
        0 <= q < n,
    ensures
        preimage_of(t, x_op(n, q).x, x_op(n, q).z, n) == t[2 * q],
        preimage_of(t, z_op(n, q).x, z_op(n, q).z, n) == t[2 * q + 1],
        preimage_of(t, x_op(n, q).x, z_op(n, q).z, n) == t[2 * q].times(t[2 * q + 1]).shifted(1),
{
    let unit = x_op(n, q).x;
    let none = x_op(n, q).z;
    assert(z_op(n, q).x =~= none);
    assert(z_op(n, q).z =~= unit);
    let id = identity_op(n);
    assert(t[2 * q].on(n) && t[2 * q + 1].on(n));
    lemma_fold_unit(id, t, unit, 0, n, q);
    lemma_fold_unit(id, t, unit, 1, n, q);
    lemma_fold_unit(t[2 * q], t, unit, 1, n, q);
    crate::frame::lemma_fold_skip(id, t, none, 0, 0, n);
    crate::frame::lemma_fold_skip(t[2 * q], t, none, 1, 0, n);
    lemma_times_identity(n, t[2 * q]);
    lemma_times_identity(n, t[2 * q + 1]);
    lemma_y_count_single(unit, none, n, q);
    lemma_y_count_single(none, unit, n, q);
    lemma_y_count_single(unit, unit, n, q);
    assert(t[2 * q].shifted(0) =~= t[2 * q]);
    assert(t[2 * q + 1].shifted(0) =~= t[2 * q + 1]);
}

proof fn lemma_y_count_single(x: Seq<bool>, z: Seq<bool>, n: int, q: int)
    requires
        0 <= n <= x.len(),
        x.len() == z.len(),
        0 <= q < x.len(),
        forall|i: int| 0 <= i < x.len() && i != q ==> !(#[trigger] x[i] && z[i]),
    ensures
        y_count(x, z, n) == if q < n {
            bit01(x[q] && z[q])
        } else {
            0
        },
    decreases n,
{
    if n > 0 {
        lemma_y_count_single(x, z, n - 1, q);
        if n - 1 != q {
            assert(!(x[n - 1] && z[n - 1]));
        }
    }
}

#[verifier::rlimit(60)]
proof fn lemma_fold_unit(acc: PauliOp, t: Seq<PauliOp>, bits: Seq<bool>, half: int, n: int, q: int)
    requires
        tableau_on(t, n),
        acc.on(n),
        0 <= half < 2,
        0 <= q < n,
        bits.len() == n,
        forall|i: int| 0 <= i < n ==> #[trigger] bits[i] == (i == q),
    ensures
        fold_rows(acc, t, bits, half, n) == acc.times(t[2 * q + half]),
{
    crate::frame::lemma_fold_skip(acc, t, bits, half, 0, q);
    assert(bits[q]);
    assert(fold_rows(acc, t, bits, half, q + 1) == acc.times(t[2 * q + half]));
    crate::frame::lemma_fold_skip(acc, t, bits, half, q + 1, n);
}

/// CNOT is the controlled Pauli of `Z_c` on `X_k`, and CZ that of `Z_c` on
/// `Z_k`.
pub proof fn law_controlled_basis_gates(t: Seq<PauliOp>, n: int, c: int, k: int)
    requires
        clifford(t, n),
        0 <= c < n,
        0 <= k < n,
        c != k,
    ensures
        tableau_controlled(t, z_op(n, c).x, z_op(n, c).z, x_op(n, k).x, x_op(n, k).z, n) == tableau_cx(
            t,
            c,
            k,
        ),
        tableau_controlled(t, z_op(n, c).x, z_op(n, c).z, z_op(n, k).x, z_op(n, k).z, n) == tableau_cz(
            t,
            c,
            k,
        ),
{
    law_preimage_of_basis(t, n, c);
    law_preimage_of_basis(t, n, k);
    let zc = z_op(n, c);
    let xk = x_op(n, k);
    let zk = z_op(n, k);
    assert(t[2 * c].on(n) && t[2 * k].on(n) && t[2 * k + 1].on(n) && t[2 * c + 1].on(n));
    lemma_commuting_exchange(t, n, 2 * c, 2 * k);
    lemma_commuting_exchange(t, n, 2 * c, 2 * k + 1);
    let u = tableau_controlled(t, zc.x, zc.z, xk.x, xk.z, n);
    assert forall|r: int| 0 <= r < t.len() implies u[r] == tableau_cx(t, c, k)[r] by {
        lemma_controlled_row(t, zc.x, zc.z, xk.x, xk.z, n, r);
        assert(r == 2 * (r / 2) + r % 2);
    }
    assert(u =~= tableau_cx(t, c, k));
    let v = tableau_controlled(t, zc.x, zc.z, zk.x, zk.z, n);
    assert forall|r: int| 0 <= r < t.len() implies v[r] == tableau_cz(t, c, k)[r] by {
        lemma_controlled_row(t, zc.x, zc.z, zk.x, zk.z, n, r);
        assert(r == 2 * (r / 2) + r % 2);
    }
    assert(v =~= tableau_cz(t, c, k));
}

#[verifier::rlimit(60)]
proof fn lemma_commuting_exchange(t: Seq<PauliOp>, n: int, i: int, j: int)
    requires
        clifford(t, n),
        0 <= i < 2 * n,
        0 <= j < 2 * n,
        i / 2 != j / 2,
    ensures
        t[i].times(t[j]) == t[j].times(t[i]),
{
    assert(t[i].on(n) && t[j].on(n));
    assert(!t[i].anticommutes(t[j]));
    lemma_times_exchange(n, t[i], t[j]);
    assert(t[j].times(t[i]).shifted(0) =~= t[j].times(t[i]));
}

// ---------------------------------------------------------------------------
// Changing the register
// ---------------------------------------------------------------------------
/// In a Clifford tableau no kept row has support on a qubit whose preimages are
/// its own basis pair, so dropping that qubit loses nothing.
#[verifier::rlimit(60)]
pub proof fn law_dropped_qubit_is_untouched(t: Seq<PauliOp>, n: int, q: int, r: int)
    requires
        clifford(t, n),
        0 <= q < n,
        t[2 * q] == x_op(n, q),
        t[2 * q + 1] == z_op(n, q),
        0 <= r < 2 * n,
        r / 2 != q,
    ensures
        !t[r].x[q],
        !t[r].z[q],
{
    assert(t[r].on(n));
    assert(!t[r].anticommutes(t[2 * q]));
    assert(!t[r].anticommutes(t[2 * q + 1]));
    lemma_dot_unit(t[r].z, x_op(n, q).x, q);
    lemma_dot_zero(t[r].x, x_op(n, q).z);
    lemma_dot_unit(t[r].x, z_op(n, q).z, q);
    lemma_dot_zero(t[r].z, z_op(n, q).x);
}

/// Growing a tableau and shrinking it back gives the tableau.
pub proof fn law_grow_then_shrink(t: Seq<PauliOp>, n: int, m: int)
    requires
        tableau_on(t, n),
        n <= m,
    ensures
        resized_tableau(resized_tableau(t, m), n) == t,
{
    let u = resized_tableau(t, m);
    assert forall|r: int| 0 <= r < 2 * n implies resized_tableau(u, n)[r] == t[r] by {
        assert(t[r].on(n));
        assert(resized_op(resized_op(t[r], m), n) =~= t[r]);
    }
    assert(resized_tableau(u, n) =~= t);
}

/// Padding with clear bits leaves overlaps alone.
proof fn lemma_dot_padded(a: Seq<bool>, b: Seq<bool>, c: Seq<bool>, d: Seq<bool>)
    requires
        a.len() == b.len(),
        c.len() == d.len(),
        a.len() <= c.len(),
        forall|i: int| 0 <= i < a.len() ==> #[trigger] c[i] == a[i],
        forall|i: int| 0 <= i < a.len() ==> #[trigger] d[i] == b[i],
        (forall|i: int| a.len() <= i < c.len() ==> !#[trigger] c[i]) || (forall|i: int|
            a.len() <= i < c.len() ==> !#[trigger] d[i]),
    ensures
        dot(c, d) == dot(a, b),
{
    let f = |i: int| c[i] && d[i];
    lemma_xor_below_tail(f, a.len() as int, c.len() as int);
    lemma_xor_below_ext(f, |i: int| a[i] && b[i], a.len() as int);
}

/// Growing keeps a Clifford tableau one.
#[verifier::rlimit(60)]
pub proof fn law_grow(t: Seq<PauliOp>, n: int, m: int)
    requires
        clifford(t, n),
        n <= m,
    ensures
        clifford(resized_tableau(t, m), m),
{
    let u = resized_tableau(t, m);
    let basis = identity_tableau(m);
    law_identity_is_clifford(m);
    assert forall|r: int| 0 <= r < u.len() implies (#[trigger] u[r]).on(m) && u[r].hermitian() by {
        if r < 2 * n {
            assert(t[r].on(n) && t[r].hermitian());
            lemma_dot_padded(t[r].x, t[r].z, u[r].x, u[r].z);
        } else {
            assert(basis[r].on(m) && basis[r].hermitian());
        }
    }
    assert forall|i: int, j: int| 0 <= i < u.len() && 0 <= j < u.len() implies #[trigger] u[i].anticommutes(
        u[j],
    ) == (i / 2 == j / 2 && i != j) by {
        assert(u[i].on(m) && u[j].on(m));
        lemma_anticommutes_symmetric(m, u[i], u[j]);
        if i < 2 * n && j < 2 * n {
            assert(t[i].on(n) && t[j].on(n));
            assert(t[i].anticommutes(t[j]) == (i / 2 == j / 2 && i != j));
            lemma_dot_padded(t[i].z, t[j].x, u[i].z, u[j].x);
            lemma_dot_padded(t[i].x, t[j].z, u[i].x, u[j].z);
        } else if i < 2 * n {
            lemma_row_against_basis(u[i], m, j);
        } else if j < 2 * n {
            lemma_row_against_basis(u[j], m, i);
        } else {
            assert(basis[i].anticommutes(basis[j]) == (i / 2 == j / 2 && i != j));
        }
    }
    assert forall|p: PauliOp|
        #![trigger p.on(m)]
        p.on(m) && (forall|r: int| 0 <= r < u.len() ==> !p.anticommutes(#[trigger] u[r])) implies p.scalar() by {
        assert forall|i: int| n <= i < m implies !#[trigger] p.x[i] && !p.z[i] by {
            assert(!p.anticommutes(u[2 * i]));
            assert(!p.anticommutes(u[2 * i + 1]));
            lemma_row_against_basis(p, m, 2 * i);
            lemma_row_against_basis(p, m, 2 * i + 1);
        }
        let w = PauliOp { x: p.x.take(n), z: p.z.take(n), phase: p.phase };
        assert(w.on(n));
        assert forall|r: int| 0 <= r < t.len() implies !w.anticommutes(#[trigger] t[r]) by {
            assert(t[r].on(n));
            assert(!p.anticommutes(u[r]));
            lemma_dot_padded(w.z, t[r].x, p.z, u[r].x);
            lemma_dot_padded(w.x, t[r].z, p.x, u[r].z);
        }
        assert(w.scalar());
        assert forall|i: int| 0 <= i < m implies !#[trigger] p.x[i] by {
            if i < n {
                assert(!w.x[i]);
            }
        }
        assert forall|i: int| 0 <= i < m implies !#[trigger] p.z[i] by {
            if i < n {
                assert(!w.z[i]);
            } else {
                assert(!p.x[i]);
            }
        }
    }
}

/// How an operator commutes with a basis operator.
#[verifier::rlimit(60)]
proof fn lemma_row_against_basis(p: PauliOp, m: int, j: int)
    requires
        p.on(m),
        0 <= j < 2 * m,
    ensures
        p.anticommutes(identity_tableau(m)[j]) == if j % 2 == 0 {
            p.z[j / 2]
        } else {
            p.x[j / 2]
        },
{
    let b = identity_tableau(m)[j];
    if j % 2 == 0 {
        lemma_dot_unit(p.z, b.x, j / 2);
        lemma_dot_zero(p.x, b.z);
    } else {
        lemma_dot_unit(p.x, b.z, j / 2);
        lemma_dot_zero(p.z, b.x);
    }
}

// ---------------------------------------------------------------------------
// Preimages under right multiplication
// ---------------------------------------------------------------------------
/// Two factors that both anticommute with a Hermitian `g`.
#[verifier::rlimit(60)]
proof fn lemma_both_turn(n: int, p: PauliOp, q: PauliOp, g: PauliOp)
    requires
        p.on(n),
        q.on(n),
        g.on(n),
        g.hermitian(),
        g.anticommutes(q),
    ensures
        p.times(g).shifted(1).times(q.times(g).shifted(1)) == p.times(q),
{
    let pq = p.times(q);
    let pg = p.times(g);
    let qg = q.times(g);
    let m = pq.times(g);
    lemma_times_on(n, p, q);
    lemma_times_on(n, p, g);
    lemma_times_on(n, q, g);
    lemma_times_on(n, pq, g);
    lemma_move_right(n, p, g, q);
    lemma_undo(n, pq, g);
    lemma_times_associative(n, pg, q, g);
    lemma_times_shifted(n, m, g, 2);
    lemma_shift_both(n, pg, qg);
    lemma_full_turn(n, pq);
}

/// Conjugation by `exp(iπ/4·g)` respects products.
#[verifier::rlimit(60)]
proof fn lemma_exp_row_times(n: int, p: PauliOp, q: PauliOp, g: PauliOp)
    requires
        p.on(n),
        q.on(n),
        g.on(n),
        g.hermitian(),
    ensures
        right_exp_row(p.times(q), g) == right_exp_row(p, g).times(right_exp_row(q, g)),
{
    lemma_anticommutes_times(n, p, q, g);
    lemma_anticommutes_symmetric(n, g, q);
    lemma_times_on(n, p, g);
    lemma_times_on(n, q, g);
    if p.anticommutes(g) && q.anticommutes(g) {
        lemma_both_turn(n, p, q, g);
    } else if p.anticommutes(g) {
        lemma_move_right(n, p, g, q);
        lemma_times_shifted(n, p.times(g), q, 1);
        assert(p.times(q).times(g).shifted(0) == p.times(q).times(g));
    } else if q.anticommutes(g) {
        lemma_times_associative(n, p, q, g);
        lemma_times_shifted(n, p, q.times(g), 1);
    }
}

#[verifier::rlimit(60)]
proof fn lemma_exp_row_shifted(n: int, p: PauliOp, g: PauliOp, k: int)
    requires
        p.on(n),
        g.on(n),
    ensures
        right_exp_row(p.shifted(k), g) == right_exp_row(p, g).shifted(k),
{
    lemma_times_shifted(n, p, g, k);
    let m = p.times(g);
    assert(m.shifted(k).shifted(1) == m.shifted(1).shifted(k)) by {
        lemma_shifted_twice(m, k, 1);
        lemma_shifted_twice(m, 1, k);
    }
}

proof fn lemma_exp_fold(t: Seq<PauliOp>, g: PauliOp, bits: Seq<bool>, half: int, k: int, n: int)
    requires
        tableau_on(t, n),
        t.len() == 2 * n,
        g.on(n),
        g.hermitian(),
        0 <= k <= n,
        0 <= half < 2,
    ensures
        fold_rows(identity_op(n), tableau_right_exp(t, g), bits, half, k) == right_exp_row(
            fold_rows(identity_op(n), t, bits, half, k),
            g,
        ),
    decreases k,
{
    if k > 0 {
        lemma_exp_fold(t, g, bits, half, k - 1, n);
        lemma_fold_on(identity_op(n), t, bits, half, k - 1, n);
        let row = t[2 * (k - 1) + half];
        assert(row.on(n));
        lemma_exp_row_times(n, fold_rows(identity_op(n), t, bits, half, k - 1), row, g);
    } else {
        lemma_dot_zero(identity_op(n).z, g.x);
        lemma_dot_zero(identity_op(n).x, g.z);
    }
}

/// `R <- R·exp(iπ/4·g)` conjugates what every Pauli is in the frame.
#[verifier::rlimit(60)]
pub proof fn law_right_exp_conjugates_preimages(t: Seq<PauliOp>, n: int, g: PauliOp, p: PauliOp)
    requires
        clifford(t, n),
        g.on(n),
        g.hermitian(),
        p.on(n),
    ensures
        preimage_op(tableau_right_exp(t, g), p, n) == right_exp_row(preimage_op(t, p, n), g),
{
    let u = tableau_right_exp(t, g);
    law_right_exp(t, n, g);
    lemma_row_product_split(t, p.x, p.z, n);
    lemma_row_product_split(u, p.x, p.z, n);
    lemma_exp_fold(t, g, p.x, 0, n, n);
    lemma_exp_fold(t, g, p.z, 1, n, n);
    lemma_fold_on(identity_op(n), t, p.x, 0, n, n);
    lemma_fold_on(identity_op(n), t, p.z, 1, n, n);
    let a = half_product(t, p.x, 0, n);
    let b = half_product(t, p.z, 1, n);
    lemma_exp_row_times(n, a, b, g);
    lemma_exp_row_shifted(n, a.times(b), g, p.phase);
}

/// One row under right multiplication by `Z_pivot`.
pub open spec fn right_z_row(p: PauliOp, pivot: int) -> PauliOp {
    if p.x[pivot] {
        p.shifted(2)
    } else {
        p
    }
}

#[verifier::rlimit(60)]
proof fn lemma_z_row_times(n: int, p: PauliOp, q: PauliOp, pivot: int)
    requires
        p.on(n),
        q.on(n),
        0 <= pivot < n,
    ensures
        right_z_row(p.times(q), pivot) == right_z_row(p, pivot).times(right_z_row(q, pivot)),
{
    let m = p.times(q);
    assert(m.on(n));
    assert(m.x[pivot] == (p.x[pivot] != q.x[pivot]));
    lemma_times_shifted(n, p, q, 2);
    lemma_times_shifted(n, p.shifted(2), q, 2);
    lemma_shifted_twice(m, 2, 2);
    assert(m.shifted(4) == m);
}

proof fn lemma_z_fold(t: Seq<PauliOp>, pivot: int, bits: Seq<bool>, half: int, k: int, n: int)
    requires
        tableau_on(t, n),
        t.len() == 2 * n,
        0 <= pivot < n,
        0 <= k <= n,
        0 <= half < 2,
    ensures
        fold_rows(identity_op(n), tableau_right_z(t, pivot), bits, half, k) == right_z_row(
            fold_rows(identity_op(n), t, bits, half, k),
            pivot,
        ),
    decreases k,
{
    if k > 0 {
        lemma_z_fold(t, pivot, bits, half, k - 1, n);
        lemma_fold_on(identity_op(n), t, bits, half, k - 1, n);
        let row = t[2 * (k - 1) + half];
        assert(row.on(n));
        lemma_z_row_times(n, fold_rows(identity_op(n), t, bits, half, k - 1), row, pivot);
    }
}

/// `R <- R·Z_pivot` conjugates what every Pauli is in the frame.
#[verifier::rlimit(60)]
pub proof fn law_right_z_conjugates_preimages(t: Seq<PauliOp>, n: int, pivot: int, p: PauliOp)
    requires
        clifford(t, n),
        0 <= pivot < n,
        p.on(n),
    ensures
        preimage_op(tableau_right_z(t, pivot), p, n) == right_z_row(preimage_op(t, p, n), pivot),
{
    let u = tableau_right_z(t, pivot);
    law_right_z(t, n, pivot);
    lemma_row_product_split(t, p.x, p.z, n);
    lemma_row_product_split(u, p.x, p.z, n);
    lemma_z_fold(t, pivot, p.x, 0, n, n);
    lemma_z_fold(t, pivot, p.z, 1, n, n);
    lemma_fold_on(identity_op(n), t, p.x, 0, n, n);
    lemma_fold_on(identity_op(n), t, p.z, 1, n, n);
    let a = half_product(t, p.x, 0, n);
    let b = half_product(t, p.z, 1, n);
    lemma_z_row_times(n, a, b, pivot);
    let m = a.times(b);
    lemma_shifted_twice(m, p.phase, 2);
    lemma_shifted_twice(m, 2, p.phase);
}

} // verus!
