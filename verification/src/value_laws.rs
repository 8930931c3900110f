//! What values that are built, read and combined hold: Pauli strings, symbolic
//! expressions, instructions and rows of bytes.
use vstd::prelude::*;
use crate::frame::{remapped_fold, remapped_preimage, Frame};
use crate::frame_laws::{law_image_inverts_preimage, tableau_on};
use crate::outputs::row_width;
use crate::pauli::{
    identity_op, lemma_dot_unit, lemma_dot_zero, x_op, z_op, Pauli, PauliOp, PauliString, RowPauli,
};
use crate::program::FactoredInstruction;
use crate::step_laws::{named_condition, named_record, written_outcome};
use crate::symbolic::{symbolic_bool, xor_bool, xor_bool_constant, SymbolicBool};

verus! {

// ---------------------------------------------------------------------------
// Pauli strings
// ---------------------------------------------------------------------------
/// A letter that was set is read back, and the other letters stay.
pub proof fn law_a_set_letter_is_read_back(
    p: &mut PauliString,
    q: usize,
    letter: Pauli,
    at: usize,
    read: Pauli,
    was: Pauli,
)
    requires
        call_ensures(PauliString::set, (p, q, letter), ()),
        call_ensures(PauliString::get, (&*final(p), at), read),
        call_ensures(PauliString::get, (&*old(p), at), was),
    ensures
        at == q ==> read == letter,
        at != q ==> read == was,
{
    assert(read == final(p).letter(at as int));
    assert(was == old(p).letter(at as int));
}

/// A string of one letter holds it at its qubit, the identity everywhere else, and no
/// sign.
pub proof fn law_a_single_letter_stands_alone(
    nqubits: usize,
    q: usize,
    letter: Pauli,
    p: PauliString,
    at: usize,
    read: Pauli,
)
    requires
        call_ensures(PauliString::single, (nqubits, q, letter), p),
        call_ensures(PauliString::get, (&p, at), read),
    ensures
        p.nqubits == nqubits,
        read == if at == q {
            letter
        } else {
            Pauli::I
        },
        p.phase == if letter == Pauli::Y {
            1int
        } else {
            0
        },
{
    assert(read == p.letter(at as int));
}

/// Two strings of one letter anticommute exactly where they share their qubit and have
/// different letters, neither of them the identity.
pub proof fn law_different_letters_of_a_qubit_anticommute(
    nqubits: usize,
    q: usize,
    a: Pauli,
    first: PauliString,
    r: usize,
    b: Pauli,
    second: PauliString,
    anticommute: bool,
)
    requires
        q < nqubits,
        r < nqubits,
        call_ensures(PauliString::single, (nqubits, q, a), first),
        call_ensures(PauliString::single, (nqubits, r, b), second),
        call_ensures(crate::pauli::pauli_anticommutes, (&first, &second), anticommute),
    ensures
        anticommute == (q == r && a != b && a != Pauli::I && b != Pauli::I),
{
    let f = first.op();
    let g = second.op();
    assert forall|i: int| 0 <= i < nqubits implies #[trigger] f.x[i] == (i == q && a.has_x()) && f.z[i]
        == (i == q && a.has_z()) by {}
    assert forall|i: int| 0 <= i < nqubits implies #[trigger] g.x[i] == (i == r && b.has_x()) && g.z[i]
        == (i == r && b.has_z()) by {}
    lemma_dot_letters(f.z, g.x, nqubits as int, q as int, r as int, a.has_z(), b.has_x());
    lemma_dot_letters(f.x, g.z, nqubits as int, q as int, r as int, a.has_x(), b.has_z());
}

proof fn lemma_dot_letters(
    u: Seq<bool>,
    v: Seq<bool>,
    n: int,
    q: int,
    r: int,
    a: bool,
    b: bool,
)
    requires
        u.len() == n,
        v.len() == n,
        0 <= q < n,
        0 <= r < n,
        forall|i: int| 0 <= i < n ==> #[trigger] u[i] == (i == q && a),
        forall|i: int| 0 <= i < n ==> #[trigger] v[i] == (i == r && b),
    ensures
        crate::pauli::dot(u, v) == (q == r && a && b),
{
    if b {
        lemma_dot_unit(u, v, r);
    } else {
        lemma_dot_zero(u, v);
    }
}

// ---------------------------------------------------------------------------
// Frames
// ---------------------------------------------------------------------------
/// The image of `X` or `Z` of a qubit, pushed back through the frame, is that operator.
pub proof fn law_images_push_back(f: Frame, q: usize, x: RowPauli, z: RowPauli)
    requires
        f.wf(),
        crate::frame_laws::clifford(f@, f.n as int),
        q < f.n,
        call_ensures(Frame::image_x, (&f, q), x),
        call_ensures(Frame::image_z, (&f, q), z),
    ensures
        crate::frame::preimage_op(f@, x.op(f.n as int), f.n as int) == x_op(f.n as int, q as int),
        crate::frame::preimage_op(f@, z.op(f.n as int), f.n as int) == z_op(f.n as int, q as int),
{
    law_image_inverts_preimage(f@, f.n as int, q as int, true);
    law_image_inverts_preimage(f@, f.n as int, q as int, false);
}

// ---------------------------------------------------------------------------
// Expressions
// ---------------------------------------------------------------------------
/// A symbol has its own value; the XOR of two expressions, or of an expression and a
/// literal, has the XOR of their values.
pub proof fn law_expressions_combine_their_values(
    a: SymbolicBool,
    b: SymbolicBool,
    value: bool,
    condition: i32,
    both: SymbolicBool,
    turned: SymbolicBool,
    symbol: SymbolicBool,
    v: spec_fn(i32) -> bool,
)
    requires
        call_ensures(xor_bool, (&a, &b), both),
        call_ensures(xor_bool_constant, (&a, value), turned),
        call_ensures(symbolic_bool, (condition,), symbol),
    ensures
        both.value(v) == (a.value(v) != b.value(v)),
        turned.value(v) == (a.value(v) != value),
        symbol.value(v) == v(condition),
{
    reveal_with_fuel(crate::symbolic::xor_of, 2);
    assert(seq![condition].drop_last() =~= Seq::<i32>::empty());
}

// ---------------------------------------------------------------------------
// Instructions
// ---------------------------------------------------------------------------
/// An instruction that writes a measurement tells the record, the symbol and the
/// expression that it writes, and whether it draws; an expectation probe writes, draws
/// and derives nothing.
pub proof fn law_instructions_tell_what_they_write(ins: FactoredInstruction)
    ensures
        written_outcome(ins) is Some ==> {
            &&& ins.writes() == named_record(ins)
            &&& ins.derives() == named_condition(ins)
            &&& ins.outcome_of() == written_outcome(ins)
            &&& ins.exp_val_of() is None
        },
        written_outcome(ins) is None ==> ins.writes() is None && ins.derives() is None
            && ins.drawn() is None,
        ins.drawn() is Some ==> match ins {
            FactoredInstruction::MeasurePrecomputedActivePauli(inst) => ins.drawn() == Some(inst.branch),
            FactoredInstruction::IntroduceDormantMeasurementBranch(inst) => ins.drawn() == Some(
                inst.branch,
            ),
            _ => false,
        },
        ins is MeasurePrecomputedActivePauli || ins is IntroduceDormantMeasurementBranch ==> (
        ins.drawn() is Some) == (written_outcome(ins) is Some),
{
}

// ---------------------------------------------------------------------------
// Rows
// ---------------------------------------------------------------------------
/// A row takes a byte for every column, or when packed the fewest bytes that have a bit for
/// every column.
pub proof fn law_rows_are_as_wide_as_needed(columns: int)
    requires
        0 <= columns,
    ensures
        row_width(columns, false) == columns,
        8 * row_width(columns, true) >= columns,
        8 * row_width(columns, true) - columns < 8,
{
}

// ---------------------------------------------------------------------------
// Local rows
// ---------------------------------------------------------------------------
proof fn lemma_remapped_empty(
    acc: PauliOp,
    t: Seq<PauliOp>,
    bits: Seq<bool>,
    support: Seq<usize>,
    half: int,
    k: int,
)
    requires
        0 <= k <= bits.len(),
        forall|i: int| 0 <= i < k ==> !#[trigger] bits[i],
    ensures
        remapped_fold(acc, t, bits, support, half, k) == acc,
    decreases k,
{
    if k > 0 {
        lemma_remapped_empty(acc, t, bits, support, half, k - 1);
    }
}

proof fn lemma_remapped_single(
    acc: PauliOp,
    t: Seq<PauliOp>,
    bits: Seq<bool>,
    support: Seq<usize>,
    half: int,
    k: int,
    q: int,
)
    requires
        0 <= q < k <= bits.len(),
        forall|i: int| 0 <= i < k ==> #[trigger] bits[i] == (i == q),
    ensures
        remapped_fold(acc, t, bits, support, half, k) == acc.times(t[2 * support[q] + half]),
    decreases k,
{
    if k - 1 == q {
        lemma_remapped_empty(acc, t, bits, support, half, k - 1);
    } else {
        lemma_remapped_single(acc, t, bits, support, half, k - 1, q);
    }
}

/// A local `X` or `Z` stands for that of the qubit at its place in the support: its
/// preimage is the stored row, with the phase of the local operator on top.
pub proof fn law_local_letters_stand_for_their_qubits(
    t: Seq<PauliOp>,
    n: int,
    support: Seq<usize>,
    q: int,
    phase: int,
)
    requires
        tableau_on(t, n),
        0 <= q < support.len(),
        support[q] < n,
    ensures
        ({
            let k = support.len() as int;
            let x = PauliOp { phase, ..x_op(k, q) };
            let z = PauliOp { phase, ..z_op(k, q) };
            &&& remapped_preimage(t, x, support, n) == t[2 * support[q]].shifted(phase)
            &&& remapped_preimage(t, z, support, n) == t[2 * support[q] + 1].shifted(phase)
        }),
{
    let k = support.len() as int;
    let one = identity_op(n);
    let x = x_op(k, q);
    let z = z_op(k, q);
    assert(one.on(n));
    lemma_remapped_single(one, t, x.x, support, 0, k, q);
    lemma_remapped_empty(one.times(t[2 * support[q] + 0]), t, x.z, support, 1, k);
    lemma_remapped_empty(one, t, z.x, support, 0, k);
    lemma_remapped_single(one, t, z.z, support, 1, k, q);
    crate::pauli::lemma_times_identity(n, t[2 * support[q] + 0]);
    crate::pauli::lemma_times_identity(n, t[2 * support[q] + 1]);
}

} // verus!
