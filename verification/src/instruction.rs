//! A compact instruction set the engine can replay without re-translating it.
//!
//! [`Instruction`] is a circuit after translation: plain qubit indices, named
//! gates, and the Paulis (a measurement observable, a multi-qubit rotation axis,
//! a noise alternative) that cannot be reduced to an index. Building it costs
//! the translation once.
//!
//! Floating-point operands are carried as the bits of a double. A probability
//! that is shared out evenly keeps the number of parts beside the bits
//! ([`Share`]), so that the caller divides once.
use vstd::prelude::*;
use crate::frame::register_fits;
use crate::gates::Gate1Q;
use crate::pauli::{bit01, identity_op, Pauli, PauliBasis, PauliOp, PauliString};
use crate::simulator::need_both;

verus! {

// ---------------------------------------------------------------------------
// Circuits
// ---------------------------------------------------------------------------
/// What a circuit instruction does.
#[derive(Clone, Copy, Debug, PartialEq, Eq, Hash, Structural)]
pub enum CircuitInstructionKind {
    H,
    HNegXy,
    HNegXz,
    HNegYz,
    HXy,
    HYz,
    CNegXyz,
    CNegZyx,
    CXNegYz,
    CXyNegZ,
    CXyz,
    CZNegYx,
    CZyNegX,
    CZyx,
    S,
    SDag,
    SqrtX,
    SqrtXDag,
    SqrtY,
    SqrtYDag,
    X,
    Y,
    Z,
    CX,
    CY,
    CZ,
    Xcx,
    Xcy,
    Xcz,
    Ycx,
    Ycy,
    Ycz,
    Swap,
    CxSwap,
    CzSwap,
    ISwap,
    ISwapDag,
    SqrtXx,
    SqrtXxDag,
    SqrtYy,
    SqrtYyDag,
    SqrtZz,
    SqrtZzDag,
    SwapCx,
    Tick,
    T,
    TDag,
    PauliRotation,
    MZ,
    MX,
    MY,
    Mrz,
    Mrx,
    Mry,
    RZ,
    RX,
    RY,
    Mpp,
    ExpVal,
    XError,
    YError,
    ZError,
    Depolarize1,
    Depolarize2,
    Depolarize3,
    PauliChannel1,
    PauliChannel2,
    PauliChannel3,
    PauliProductChannel,
    HeraldedErase,
    HeraldedPauliChannel1,
    MPad,
    FeedbackX,
    FeedbackY,
    FeedbackZ,
}

/// A Pauli product with an optional leading inversion mark.
#[derive(Clone, Debug, PartialEq, Eq)]
pub struct CircuitPauliProduct {
    pub pauli: PauliString,
    pub inverted: bool,
}

/// A measured qubit, or the value of a padding record.
#[derive(Clone, Copy, Debug, PartialEq, Eq, Structural)]
pub struct MeasurementTarget {
    pub qubit: usize,
    pub inverted: bool,
}

/// A qubit corrected when a record is set; records count from one.
#[derive(Clone, Copy, Debug, PartialEq, Eq, Structural)]
pub struct FeedbackTarget {
    pub qubit: usize,
    pub record: usize,
}

/// One instruction of a circuit.
#[derive(Clone, Debug, PartialEq, Eq)]
pub struct CircuitInstruction {
    pub kind: CircuitInstructionKind,
    pub qubits: Vec<usize>,
    pub pauli_products: Vec<CircuitPauliProduct>,
    pub measurement_targets: Vec<MeasurementTarget>,
    pub feedback_targets: Vec<FeedbackTarget>,
    /// The bits of a probability.
    pub probability: u64,
    /// The bits of the probabilities of a channel.
    pub probabilities: Vec<u64>,
    /// The bits of a rotation angle.
    pub kernel_angle: u64,
}

/// A circuit on `nqubits` qubits.
#[derive(Clone, Debug, PartialEq, Eq)]
pub struct Circuit {
    pub nqubits: usize,
    pub instructions: Vec<CircuitInstruction>,
}

impl CircuitInstruction {
    /// The operands lie inside the circuit's register.
    pub open spec fn wf(&self, nqubits: int) -> bool {
        &&& forall|i: int| 0 <= i < self.qubits@.len() ==> #[trigger] self.qubits@[i] < nqubits
        &&& forall|i: int|
            0 <= i < self.pauli_products@.len() ==> (#[trigger] self.pauli_products@[i]).pauli.wf()
        &&& self.kind != CircuitInstructionKind::MPad ==> forall|i: int|
            0 <= i < self.measurement_targets@.len() ==> (#[trigger] self.measurement_targets@[i]).qubit
                < nqubits
        &&& forall|i: int|
            0 <= i < self.feedback_targets@.len() ==> (#[trigger] self.feedback_targets@[i]).record > 0
    }
}

impl CircuitInstruction {
    /// The products and the corrected qubits can be addressed.
    pub open spec fn addressable(&self) -> bool {
        &&& forall|i: int|
            0 <= i < self.pauli_products@.len() ==> register_fits(
                (#[trigger] self.pauli_products@[i]).pauli.nqubits as int,
            )
        &&& forall|i: int|
            0 <= i < self.feedback_targets@.len() ==> register_fits(
                (#[trigger] self.feedback_targets@[i]).qubit + 1,
            )
    }
}

impl Circuit {
    /// A simulator can hold every register the circuit names.
    pub open spec fn addressable(&self) -> bool {
        &&& register_fits(self.nqubits as int)
        &&& forall|i: int|
            0 <= i < self.instructions@.len() ==> (#[trigger] self.instructions@[i]).addressable()
    }

    /// The register can be addressed and every instruction stays inside it.
    pub open spec fn wf(&self) -> bool {
        &&& self.nqubits + 63 <= usize::MAX
        &&& forall|i: int|
            0 <= i < self.instructions@.len() ==> (#[trigger] self.instructions@[i]).wf(
                self.nqubits as int,
            )
    }
}

// ---------------------------------------------------------------------------
// Instructions
// ---------------------------------------------------------------------------
/// The double with these bits, divided by `parts`.
#[derive(Clone, Copy, Debug, PartialEq, Eq, Structural)]
pub struct Share {
    pub bits: u64,
    pub parts: usize,
}

/// One step of a batch program.
#[allow(inconsistent_fields)]
#[derive(Clone, Debug, PartialEq, Eq)]
pub enum Instruction {
    /// A named single-qubit Clifford.
    Gate1 { gate: Gate1Q, qubit: usize },
    /// A two-qubit `<A>C<B>` gate: apply `target` on `target_qubit` when
    /// `control_qubit` is in the `-1` eigenstate of `control`.
    Gate2 { control: PauliBasis, target: PauliBasis, control_qubit: usize, target_qubit: usize },
    /// A single-qubit Pauli.
    Pauli { basis: PauliBasis, qubit: usize },
    /// `T`/`T†` about a single-qubit basis axis.
    T { basis: PauliBasis, qubit: usize, adjoint: bool },
    /// `T`/`T†` about an arbitrary Pauli axis.
    TPauli { axis: PauliString, adjoint: bool },
    /// `exp(-i * kernel_angle * axis)`.
    PauliRotation { axis: PauliString, kernel_angle: u64 },
    /// Measure a Pauli observable, appending its result to the records.
    Measure(PauliString),
    /// Measure a Pauli observable and independently flip the recorded bit.
    MeasureWithReadoutError { observable: PauliString, probability: u64 },
    /// Append a classical record, optionally flipped by Bernoulli noise.
    Record { value: bool, flip_probability: u64 },
    /// Sample at most one Pauli alternative and apply it.
    RandomPauli { probabilities: Vec<Share>, alternatives: Vec<PauliString>, heralded: bool },
    /// Read a Pauli expectation value without changing the state.
    Expectation(PauliString),
    /// Reset a qubit to the `+1` eigenstate of `basis`.
    Reset { basis: PauliBasis, qubit: usize },
    /// Apply a single-qubit Pauli if an earlier measurement in this batch came
    /// out `-1`.
    ConditionalPauli { basis: PauliBasis, qubit: usize, control: usize },
}

/// The operands can be addressed.
pub open spec fn addressable(ins: Instruction) -> bool {
    match ins {
        Instruction::Gate1 { gate, qubit } => register_fits(qubit + 1),
        Instruction::Gate2 { control, target, control_qubit, target_qubit } => register_fits(
            need_both(control_qubit as int, target_qubit as int),
        ),
        Instruction::Pauli { basis, qubit } => register_fits(qubit + 1),
        Instruction::T { basis, qubit, adjoint } => register_fits(qubit + 1),
        Instruction::TPauli { axis, adjoint } => on_register(axis),
        Instruction::PauliRotation { axis, kernel_angle } => on_register(axis),
        Instruction::Measure(observable) => on_register(observable),
        Instruction::MeasureWithReadoutError { observable, probability } => on_register(observable),
        Instruction::Record { value, flip_probability } => true,
        Instruction::RandomPauli { probabilities, alternatives, heralded } => forall|i: int|
            0 <= i < alternatives@.len() ==> on_register(#[trigger] alternatives@[i]),
        Instruction::Expectation(observable) => on_register(observable),
        Instruction::Reset { basis, qubit } => register_fits(qubit + 1),
        Instruction::ConditionalPauli { basis, qubit, control } => register_fits(qubit + 1),
    }
}

/// A string on a register that can be addressed.
pub open spec fn on_register(p: PauliString) -> bool {
    p.wf() && register_fits(p.nqubits as int)
}

/// Every instruction of a list can be addressed.
pub open spec fn all_addressable(list: Seq<Instruction>) -> bool {
    forall|i: int| 0 <= i < list.len() ==> addressable(#[trigger] list[i])
}

/// Every string of a list is on a register that can be addressed.
pub open spec fn all_on_register(list: Seq<PauliString>) -> bool {
    forall|i: int| 0 <= i < list.len() ==> on_register(#[trigger] list[i])
}

/// An instruction with its Paulis as operators.
#[allow(inconsistent_fields)]
#[verifier::ext_equal]
pub enum Action {
    Gate1 { gate: Gate1Q, qubit: usize },
    Gate2 { control: PauliBasis, target: PauliBasis, control_qubit: usize, target_qubit: usize },
    Pauli { basis: PauliBasis, qubit: usize },
    T { basis: PauliBasis, qubit: usize, adjoint: bool },
    TPauli { axis: PauliOp, adjoint: bool },
    PauliRotation { axis: PauliOp, kernel_angle: u64 },
    Measure { observable: PauliOp },
    MeasureWithReadoutError { observable: PauliOp, probability: u64 },
    Record { value: bool, flip_probability: u64 },
    RandomPauli { probabilities: Seq<Share>, alternatives: Seq<PauliOp>, heralded: bool },
    Expectation { observable: PauliOp },
    Reset { basis: PauliBasis, qubit: usize },
    ConditionalPauli { basis: PauliBasis, qubit: usize, control: usize },
}

/// The operators of a list of strings.
pub open spec fn ops(list: Seq<PauliString>) -> Seq<PauliOp> {
    Seq::new(list.len(), |i: int| list[i].op())
}

impl View for Instruction {
    type V = Action;

    open spec fn view(&self) -> Action {
        match *self {
            Instruction::Gate1 { gate, qubit } => Action::Gate1 { gate, qubit },
            Instruction::Gate2 { control, target, control_qubit, target_qubit } => Action::Gate2 {
                control,
                target,
                control_qubit,
                target_qubit,
            },
            Instruction::Pauli { basis, qubit } => Action::Pauli { basis, qubit },
            Instruction::T { basis, qubit, adjoint } => Action::T { basis, qubit, adjoint },
            Instruction::TPauli { axis, adjoint } => Action::TPauli { axis: axis.op(), adjoint },
            Instruction::PauliRotation { axis, kernel_angle } => Action::PauliRotation {
                axis: axis.op(),
                kernel_angle,
            },
            Instruction::Measure(observable) => Action::Measure { observable: observable.op() },
            Instruction::MeasureWithReadoutError { observable, probability } =>
                Action::MeasureWithReadoutError { observable: observable.op(), probability },
            Instruction::Record { value, flip_probability } => Action::Record {
                value,
                flip_probability,
            },
            Instruction::RandomPauli { probabilities, alternatives, heralded } =>
                Action::RandomPauli {
                probabilities: probabilities@,
                alternatives: ops(alternatives@),
                heralded,
            },
            Instruction::Expectation(observable) => Action::Expectation {
                observable: observable.op(),
            },
            Instruction::Reset { basis, qubit } => Action::Reset { basis, qubit },
            Instruction::ConditionalPauli { basis, qubit, control } => Action::ConditionalPauli {
                basis,
                qubit,
                control,
            },
        }
    }
}

/// The actions of a program.
pub open spec fn actions(program: Seq<Instruction>) -> Seq<Action> {
    Seq::new(program.len(), |i: int| program[i]@)
}

/// The lists `f(0), .., f(n - 1)` one after another.
pub open spec fn concat_below(f: spec_fn(int) -> Seq<Action>, n: int) -> Seq<Action>
    decreases n,
{
    if n <= 0 {
        Seq::empty()
    } else {
        concat_below(f, n - 1) + f(n - 1)
    }
}

/// A named gate for a single-qubit Clifford kind.
pub open spec fn gate1_of(kind: CircuitInstructionKind) -> Option<Gate1Q> {
    match kind {
        CircuitInstructionKind::H => Some(Gate1Q::H),
        CircuitInstructionKind::HNegXy => Some(Gate1Q::Hnxy),
        CircuitInstructionKind::HNegXz => Some(Gate1Q::Hnxz),
        CircuitInstructionKind::HNegYz => Some(Gate1Q::Hnyz),
        CircuitInstructionKind::HXy => Some(Gate1Q::Hxy),
        CircuitInstructionKind::HYz => Some(Gate1Q::Hyz),
        CircuitInstructionKind::CNegXyz => Some(Gate1Q::Cnxyz),
        CircuitInstructionKind::CNegZyx => Some(Gate1Q::Cnzyx),
        CircuitInstructionKind::CXNegYz => Some(Gate1Q::Cxnyz),
        CircuitInstructionKind::CXyNegZ => Some(Gate1Q::Cxynz),
        CircuitInstructionKind::CXyz => Some(Gate1Q::Cxyz),
        CircuitInstructionKind::CZNegYx => Some(Gate1Q::Cznyx),
        CircuitInstructionKind::CZyNegX => Some(Gate1Q::Czynx),
        CircuitInstructionKind::CZyx => Some(Gate1Q::Czyx),
        CircuitInstructionKind::S => Some(Gate1Q::S),
        CircuitInstructionKind::SDag => Some(Gate1Q::SDag),
        CircuitInstructionKind::SqrtX => Some(Gate1Q::SqrtX),
        CircuitInstructionKind::SqrtXDag => Some(Gate1Q::SqrtXDag),
        CircuitInstructionKind::SqrtY => Some(Gate1Q::SqrtY),
        CircuitInstructionKind::SqrtYDag => Some(Gate1Q::SqrtYDag),
        CircuitInstructionKind::X => Some(Gate1Q::X),
        CircuitInstructionKind::Y => Some(Gate1Q::Y),
        CircuitInstructionKind::Z => Some(Gate1Q::Z),
        _ => None,
    }
}

/// The axes of a controlled-Pauli kind.
pub open spec fn gate2_of(kind: CircuitInstructionKind) -> Option<(PauliBasis, PauliBasis)> {
    match kind {
        CircuitInstructionKind::CX => Some((PauliBasis::Z, PauliBasis::X)),
        CircuitInstructionKind::CY => Some((PauliBasis::Z, PauliBasis::Y)),
        CircuitInstructionKind::CZ => Some((PauliBasis::Z, PauliBasis::Z)),
        CircuitInstructionKind::Xcx => Some((PauliBasis::X, PauliBasis::X)),
        CircuitInstructionKind::Xcy => Some((PauliBasis::X, PauliBasis::Y)),
        CircuitInstructionKind::Xcz => Some((PauliBasis::X, PauliBasis::Z)),
        CircuitInstructionKind::Ycx => Some((PauliBasis::Y, PauliBasis::X)),
        CircuitInstructionKind::Ycy => Some((PauliBasis::Y, PauliBasis::Y)),
        CircuitInstructionKind::Ycz => Some((PauliBasis::Y, PauliBasis::Z)),
        _ => None,
    }
}

pub open spec fn gate1_action(gate: Gate1Q, qubit: usize) -> Action {
    Action::Gate1 { gate, qubit }
}

pub open spec fn cx_action(control: usize, target: usize) -> Action {
    Action::Gate2 {
        control: PauliBasis::Z,
        target: PauliBasis::X,
        control_qubit: control,
        target_qubit: target,
    }
}

pub open spec fn cz_action(a: usize, b: usize) -> Action {
    Action::Gate2 { control: PauliBasis::Z, target: PauliBasis::Z, control_qubit: a, target_qubit: b }
}

/// SWAP as three CNOTs.
pub open spec fn swap_actions(a: usize, b: usize) -> Seq<Action> {
    seq![cx_action(a, b), cx_action(b, a), cx_action(a, b)]
}

/// `√ZZ`: the phase gate on the parity.
pub open spec fn sqrt_zz_actions(a: usize, b: usize, adjoint: bool) -> Seq<Action> {
    seq![
        cx_action(a, b),
        gate1_action(
            if adjoint {
                Gate1Q::SDag
            } else {
                Gate1Q::S
            },
            b,
        ),
        cx_action(a, b),
    ]
}

/// `√PP` about one axis: `√ZZ` conjugated by the basis rotation.
pub open spec fn sqrt_pair_actions(basis: PauliBasis, a: usize, b: usize, adjoint: bool) -> Seq<Action> {
    match basis {
        PauliBasis::X => seq![gate1_action(Gate1Q::H, a), gate1_action(Gate1Q::H, b)]
            + sqrt_zz_actions(a, b, adjoint) + seq![
            gate1_action(Gate1Q::H, a),
            gate1_action(Gate1Q::H, b),
        ],
        PauliBasis::Y => seq![gate1_action(Gate1Q::SqrtX, a), gate1_action(Gate1Q::SqrtX, b)]
            + sqrt_zz_actions(a, b, adjoint) + seq![
            gate1_action(Gate1Q::SqrtXDag, a),
            gate1_action(Gate1Q::SqrtXDag, b),
        ],
        PauliBasis::Z => sqrt_zz_actions(a, b, adjoint),
    }
}

/// What a two-qubit Clifford kind does to a pair.
pub open spec fn pair_actions(kind: CircuitInstructionKind, a: usize, b: usize) -> Seq<Action> {
    match gate2_of(kind) {
        Some((control, target)) => seq![
            Action::Gate2 { control, target, control_qubit: a, target_qubit: b },
        ],
        None => match kind {
            CircuitInstructionKind::Swap => swap_actions(a, b),
            CircuitInstructionKind::CxSwap => seq![cx_action(a, b)] + swap_actions(a, b),
            CircuitInstructionKind::CzSwap => seq![cz_action(a, b)] + swap_actions(a, b),
            CircuitInstructionKind::SwapCx => swap_actions(a, b) + seq![cx_action(a, b)],
            CircuitInstructionKind::ISwap => seq![
                cz_action(a, b),
                gate1_action(Gate1Q::S, a),
                gate1_action(Gate1Q::S, b),
            ] + swap_actions(a, b),
            CircuitInstructionKind::ISwapDag => seq![
                cz_action(a, b),
                gate1_action(Gate1Q::SDag, a),
                gate1_action(Gate1Q::SDag, b),
            ] + swap_actions(a, b),
            CircuitInstructionKind::SqrtXx => sqrt_pair_actions(PauliBasis::X, a, b, false),
            CircuitInstructionKind::SqrtXxDag => sqrt_pair_actions(PauliBasis::X, a, b, true),
            CircuitInstructionKind::SqrtYy => sqrt_pair_actions(PauliBasis::Y, a, b, false),
            CircuitInstructionKind::SqrtYyDag => sqrt_pair_actions(PauliBasis::Y, a, b, true),
            CircuitInstructionKind::SqrtZz => sqrt_pair_actions(PauliBasis::Z, a, b, false),
            CircuitInstructionKind::SqrtZzDag => sqrt_pair_actions(PauliBasis::Z, a, b, true),
            _ => Seq::empty(),
        },
    }
}

/// Whether the kind is a two-qubit Clifford.
pub open spec fn is_pair_kind(kind: CircuitInstructionKind) -> bool {
    gate2_of(kind) is Some || kind == CircuitInstructionKind::Swap || kind
        == CircuitInstructionKind::CxSwap || kind == CircuitInstructionKind::CzSwap || kind
        == CircuitInstructionKind::SwapCx || kind == CircuitInstructionKind::ISwap || kind
        == CircuitInstructionKind::ISwapDag || kind == CircuitInstructionKind::SqrtXx || kind
        == CircuitInstructionKind::SqrtXxDag || kind == CircuitInstructionKind::SqrtYy || kind
        == CircuitInstructionKind::SqrtYyDag || kind == CircuitInstructionKind::SqrtZz || kind
        == CircuitInstructionKind::SqrtZzDag
}

/// The operator of a product.
pub open spec fn product_op(product: CircuitPauliProduct) -> PauliOp {
    if product.inverted {
        product.pauli.op().shifted(2)
    } else {
        product.pauli.op()
    }
}

/// A letter on one qubit of a register.
pub open spec fn letter_op(n: int, q: int, letter: Pauli) -> PauliOp {
    PauliOp {
        x: Seq::new(n as nat, |i: int| i == q && letter.has_x()),
        z: Seq::new(n as nat, |i: int| i == q && letter.has_z()),
        phase: bit01(letter == Pauli::Y),
    }
}

/// The operator with the letter at `q` replaced.
pub open spec fn with_letter(p: PauliOp, q: int, letter: Pauli) -> PauliOp {
    PauliOp {
        x: p.x.update(q, letter.has_x()),
        z: p.z.update(q, letter.has_z()),
        phase: (p.phase + bit01(letter == Pauli::Y) - bit01(p.x[q] && p.z[q])) % 4,
    }
}

/// The letter of a base-4 digit: I, X, Y, Z.
pub open spec fn digit_letter(digit: int) -> Pauli {
    if digit == 0 {
        Pauli::I
    } else if digit == 1 {
        Pauli::X
    } else if digit == 2 {
        Pauli::Y
    } else {
        Pauli::Z
    }
}

/// Digit `i` of `code` in base 4, for a code of at most three digits.
pub open spec fn code_digit(code: int, i: int) -> int {
    if i <= 0 {
        code % 4
    } else if i == 1 {
        (code / 4) % 4
    } else {
        (code / 16) % 4
    }
}

/// The operator that a code spells on a list of qubits: the last qubit takes the
/// lowest digit. `k` counts the digits placed.
pub open spec fn code_op(n: int, qubits: Seq<usize>, code: int, k: int) -> PauliOp
    decreases k,
{
    if k <= 0 {
        identity_op(n)
    } else {
        with_letter(
            code_op(n, qubits, code, k - 1),
            qubits[qubits.len() - k] as int,
            digit_letter(code_digit(code, k - 1)),
        )
    }
}

/// How many codes `arity` qubits have.
pub open spec fn code_count(arity: int) -> int {
    if arity <= 0 {
        1
    } else if arity == 1 {
        4
    } else if arity == 2 {
        16
    } else {
        64
    }
}

/// The non-identity operators on a chunk of qubits, in code order.
pub open spec fn channel_ops(n: int, qubits: Seq<usize>) -> Seq<PauliOp> {
    Seq::new(
        (code_count(qubits.len() as int) - 1) as nat,
        |i: int| code_op(n, qubits, i + 1, qubits.len() as int),
    )
}

/// The chunk `i` of `arity` qubits.
pub open spec fn chunk(qubits: Seq<usize>, arity: int, i: int) -> Seq<usize> {
    qubits.subrange(arity * i, arity * i + arity)
}

/// Whole probabilities.
pub open spec fn whole_shares(probabilities: Seq<u64>) -> Seq<Share> {
    Seq::new(probabilities.len(), |i: int| Share { bits: probabilities[i], parts: 1 })
}

/// A probability shared out evenly.
pub open spec fn even_shares(bits: u64, parts: nat) -> Seq<Share> {
    Seq::new(parts, |i: int| Share { bits, parts: parts as usize })
}

/// The basis of a measurement, reset or feedback kind.
pub open spec fn kind_basis(kind: CircuitInstructionKind) -> PauliBasis {
    match kind {
        CircuitInstructionKind::MX | CircuitInstructionKind::Mrx | CircuitInstructionKind::RX
        | CircuitInstructionKind::FeedbackX | CircuitInstructionKind::XError => PauliBasis::X,
        CircuitInstructionKind::MY | CircuitInstructionKind::Mry | CircuitInstructionKind::RY
        | CircuitInstructionKind::FeedbackY | CircuitInstructionKind::YError => PauliBasis::Y,
        _ => PauliBasis::Z,
    }
}

/// How many qubits one application of a channel takes.
pub open spec fn channel_arity(kind: CircuitInstructionKind) -> int {
    match kind {
        CircuitInstructionKind::Depolarize1 | CircuitInstructionKind::PauliChannel1 => 1,
        CircuitInstructionKind::Depolarize2 | CircuitInstructionKind::PauliChannel2 => 2,
        _ => 3,
    }
}

/// What one measurement target becomes.
pub open spec fn measure_actions(
    n: int,
    kind: CircuitInstructionKind,
    target: MeasurementTarget,
    probability: u64,
) -> Seq<Action> {
    let basis = kind_basis(kind);
    let single = letter_op(n, target.qubit as int, basis.letter());
    let measure = Action::MeasureWithReadoutError {
        observable: if target.inverted {
            single.shifted(2)
        } else {
            single
        },
        probability,
    };
    if kind == CircuitInstructionKind::Mrz || kind == CircuitInstructionKind::Mrx || kind
        == CircuitInstructionKind::Mry {
        seq![measure, Action::Reset { basis, qubit: target.qubit }]
    } else {
        seq![measure]
    }
}

/// What one operand of an instruction becomes: operand `i` is a qubit, a pair or
/// chunk of qubits, a product or a target, as the kind asks.
pub open spec fn operand_actions(n: int, ins: CircuitInstruction, i: int) -> Seq<Action> {
    let kind = ins.kind;
    match gate1_of(kind) {
        Some(gate) => seq![gate1_action(gate, ins.qubits@[i])],
        None => if is_pair_kind(kind) {
            pair_actions(kind, ins.qubits@[2 * i], ins.qubits@[2 * i + 1])
        } else {
            match kind {
                CircuitInstructionKind::T | CircuitInstructionKind::TDag => seq![
                    Action::T {
                        basis: PauliBasis::Z,
                        qubit: ins.qubits@[i],
                        adjoint: kind == CircuitInstructionKind::TDag,
                    },
                ],
                CircuitInstructionKind::PauliRotation => seq![
                    Action::PauliRotation {
                        axis: product_op(ins.pauli_products@[i]),
                        kernel_angle: ins.kernel_angle,
                    },
                ],
                CircuitInstructionKind::MZ | CircuitInstructionKind::MX | CircuitInstructionKind::MY
                | CircuitInstructionKind::Mrz | CircuitInstructionKind::Mrx
                | CircuitInstructionKind::Mry => measure_actions(
                    n,
                    kind,
                    ins.measurement_targets@[i],
                    ins.probability,
                ),
                CircuitInstructionKind::RZ | CircuitInstructionKind::RX
                | CircuitInstructionKind::RY => seq![
                    Action::Reset { basis: kind_basis(kind), qubit: ins.qubits@[i] },
                ],
                CircuitInstructionKind::Mpp => seq![
                    Action::MeasureWithReadoutError {
                        observable: product_op(ins.pauli_products@[i]),
                        probability: ins.probability,
                    },
                ],
                CircuitInstructionKind::ExpVal => seq![
                    Action::Expectation { observable: product_op(ins.pauli_products@[i]) },
                ],
                CircuitInstructionKind::XError | CircuitInstructionKind::YError
                | CircuitInstructionKind::ZError => seq![
                    Action::RandomPauli {
                        probabilities: seq![Share { bits: ins.probability, parts: 1 }],
                        alternatives: seq![
                            letter_op(n, ins.qubits@[i] as int, kind_basis(kind).letter()),
                        ],
                        heralded: false,
                    },
                ],
                CircuitInstructionKind::Depolarize1 | CircuitInstructionKind::Depolarize2
                | CircuitInstructionKind::Depolarize3 => {
                    let arity = channel_arity(kind);
                    seq![
                        Action::RandomPauli {
                            probabilities: even_shares(
                                ins.probability,
                                (code_count(arity) - 1) as nat,
                            ),
                            alternatives: channel_ops(n, chunk(ins.qubits@, arity, i)),
                            heralded: false,
                        },
                    ]
                },
                CircuitInstructionKind::PauliChannel1 | CircuitInstructionKind::PauliChannel2
                | CircuitInstructionKind::PauliChannel3 => seq![
                    Action::RandomPauli {
                        probabilities: whole_shares(ins.probabilities@),
                        alternatives: channel_ops(
                            n,
                            chunk(ins.qubits@, channel_arity(kind), i),
                        ),
                        heralded: false,
                    },
                ],
                CircuitInstructionKind::PauliProductChannel => seq![
                    Action::RandomPauli {
                        probabilities: whole_shares(ins.probabilities@),
                        alternatives: Seq::new(
                            ins.pauli_products@.len(),
                            |k: int| product_op(ins.pauli_products@[k]),
                        ),
                        heralded: false,
                    },
                ],
                CircuitInstructionKind::HeraldedErase
                | CircuitInstructionKind::HeraldedPauliChannel1 => seq![
                    Action::RandomPauli {
                        probabilities: if kind == CircuitInstructionKind::HeraldedErase {
                            even_shares(ins.probability, 4)
                        } else {
                            whole_shares(ins.probabilities@)
                        },
                        alternatives: Seq::new(
                            4,
                            |k: int| code_op(n, seq![ins.qubits@[i]], k, 1),
                        ),
                        heralded: true,
                    },
                ],
                CircuitInstructionKind::MPad => seq![
                    Action::Record {
                        value: (ins.measurement_targets@[i].qubit != 0)
                            != ins.measurement_targets@[i].inverted,
                        flip_probability: ins.probability,
                    },
                ],
                CircuitInstructionKind::FeedbackX | CircuitInstructionKind::FeedbackY
                | CircuitInstructionKind::FeedbackZ => seq![
                    Action::ConditionalPauli {
                        basis: kind_basis(kind),
                        qubit: ins.feedback_targets@[i].qubit,
                        control: (ins.feedback_targets@[i].record - 1) as usize,
                    },
                ],
                _ => Seq::empty(),
            }
        },
    }
}

/// How many operands an instruction has.
pub open spec fn operand_count(ins: CircuitInstruction) -> int {
    let kind = ins.kind;
    if gate1_of(kind) is Some {
        ins.qubits@.len() as int
    } else if is_pair_kind(kind) {
        ins.qubits@.len() as int / 2
    } else {
        match kind {
            CircuitInstructionKind::Tick => 0,
            CircuitInstructionKind::PauliRotation | CircuitInstructionKind::Mpp
            | CircuitInstructionKind::ExpVal => ins.pauli_products@.len() as int,
            CircuitInstructionKind::MZ | CircuitInstructionKind::MX | CircuitInstructionKind::MY
            | CircuitInstructionKind::Mrz | CircuitInstructionKind::Mrx
            | CircuitInstructionKind::Mry | CircuitInstructionKind::MPad =>
                ins.measurement_targets@.len() as int,
            CircuitInstructionKind::Depolarize1 | CircuitInstructionKind::Depolarize2
            | CircuitInstructionKind::Depolarize3 | CircuitInstructionKind::PauliChannel1
            | CircuitInstructionKind::PauliChannel2 | CircuitInstructionKind::PauliChannel3 =>
                ins.qubits@.len() as int / channel_arity(kind),
            CircuitInstructionKind::PauliProductChannel => 1,
            CircuitInstructionKind::FeedbackX | CircuitInstructionKind::FeedbackY
            | CircuitInstructionKind::FeedbackZ => ins.feedback_targets@.len() as int,
            _ => ins.qubits@.len() as int,
        }
    }
}

/// What an instruction becomes: its operands' actions in order.
pub open spec fn instruction_actions(n: int, ins: CircuitInstruction) -> Seq<Action> {
    concat_below(|i: int| operand_actions(n, ins, i), operand_count(ins))
}

/// What a circuit becomes: its instructions' actions in order.
pub open spec fn circuit_actions(circuit: Circuit) -> Seq<Action> {
    concat_below(
        |k: int| instruction_actions(circuit.nqubits as int, circuit.instructions@[k]),
        circuit.instructions@.len() as int,
    )
}

// ---------------------------------------------------------------------------
// Translation
// ---------------------------------------------------------------------------
fn gate1_for(kind: CircuitInstructionKind) -> (r: Option<Gate1Q>)
    ensures
        r == gate1_of(kind),
{
    match kind {
        CircuitInstructionKind::H => Some(Gate1Q::H),
        CircuitInstructionKind::HNegXy => Some(Gate1Q::Hnxy),
        CircuitInstructionKind::HNegXz => Some(Gate1Q::Hnxz),
        CircuitInstructionKind::HNegYz => Some(Gate1Q::Hnyz),
        CircuitInstructionKind::HXy => Some(Gate1Q::Hxy),
        CircuitInstructionKind::HYz => Some(Gate1Q::Hyz),
        CircuitInstructionKind::CNegXyz => Some(Gate1Q::Cnxyz),
        CircuitInstructionKind::CNegZyx => Some(Gate1Q::Cnzyx),
        CircuitInstructionKind::CXNegYz => Some(Gate1Q::Cxnyz),
        CircuitInstructionKind::CXyNegZ => Some(Gate1Q::Cxynz),
        CircuitInstructionKind::CXyz => Some(Gate1Q::Cxyz),
        CircuitInstructionKind::CZNegYx => Some(Gate1Q::Cznyx),
        CircuitInstructionKind::CZyNegX => Some(Gate1Q::Czynx),
        CircuitInstructionKind::CZyx => Some(Gate1Q::Czyx),
        CircuitInstructionKind::S => Some(Gate1Q::S),
        CircuitInstructionKind::SDag => Some(Gate1Q::SDag),
        CircuitInstructionKind::SqrtX => Some(Gate1Q::SqrtX),
        CircuitInstructionKind::SqrtXDag => Some(Gate1Q::SqrtXDag),
        CircuitInstructionKind::SqrtY => Some(Gate1Q::SqrtY),
        CircuitInstructionKind::SqrtYDag => Some(Gate1Q::SqrtYDag),
        CircuitInstructionKind::X => Some(Gate1Q::X),
        CircuitInstructionKind::Y => Some(Gate1Q::Y),
        CircuitInstructionKind::Z => Some(Gate1Q::Z),
        _ => None,
    }
}

fn gate2_for(kind: CircuitInstructionKind) -> (r: Option<(PauliBasis, PauliBasis)>)
    ensures
        r == gate2_of(kind),
{
    match kind {
        CircuitInstructionKind::CX => Some((PauliBasis::Z, PauliBasis::X)),
        CircuitInstructionKind::CY => Some((PauliBasis::Z, PauliBasis::Y)),
        CircuitInstructionKind::CZ => Some((PauliBasis::Z, PauliBasis::Z)),
        CircuitInstructionKind::Xcx => Some((PauliBasis::X, PauliBasis::X)),
        CircuitInstructionKind::Xcy => Some((PauliBasis::X, PauliBasis::Y)),
        CircuitInstructionKind::Xcz => Some((PauliBasis::X, PauliBasis::Z)),
        CircuitInstructionKind::Ycx => Some((PauliBasis::Y, PauliBasis::X)),
        CircuitInstructionKind::Ycy => Some((PauliBasis::Y, PauliBasis::Y)),
        CircuitInstructionKind::Ycz => Some((PauliBasis::Y, PauliBasis::Z)),
        _ => None,
    }
}

fn push_action(out: &mut Vec<Instruction>, instruction: Instruction)
    ensures
        all_addressable(old(out)@) && addressable(instruction) ==> all_addressable(
            final(out)@,
        ),
        actions(final(out)@) == actions(old(out)@).push(instruction@),
{
    out.push(instruction);
    assert(actions(out@) =~= actions(old(out)@).push(instruction@));
}

fn push_gate1(out: &mut Vec<Instruction>, gate: Gate1Q, qubit: usize)
    ensures
        all_addressable(old(out)@) && register_fits(qubit + 1) ==> all_addressable(
            final(out)@,
        ),
        actions(final(out)@) == actions(old(out)@).push(gate1_action(gate, qubit)),
{
    push_action(out, Instruction::Gate1 { gate, qubit });
}

fn push_gate2(
    out: &mut Vec<Instruction>,
    control: PauliBasis,
    target: PauliBasis,
    control_qubit: usize,
    target_qubit: usize,
)
    ensures
        all_addressable(old(out)@) && register_fits(control_qubit + 1) && register_fits(
            target_qubit + 1,
        ) ==> all_addressable(
            final(out)@,
        ),
        actions(final(out)@) == actions(old(out)@).push(
            (Action::Gate2 { control, target, control_qubit, target_qubit }),
        ),
{
    push_action(out, Instruction::Gate2 { control, target, control_qubit, target_qubit });
}

fn push_cx(out: &mut Vec<Instruction>, control: usize, target: usize)
    ensures
        all_addressable(old(out)@) && register_fits(control + 1) && register_fits(target + 1) ==> all_addressable(
            final(out)@,
        ),
        actions(final(out)@) == actions(old(out)@).push(cx_action(control, target)),
{
    push_gate2(out, PauliBasis::Z, PauliBasis::X, control, target);
}

fn push_swap(out: &mut Vec<Instruction>, a: usize, b: usize)
    ensures
        all_addressable(old(out)@) && register_fits(a + 1) && register_fits(b + 1) ==> all_addressable(
            final(out)@,
        ),
        actions(final(out)@) == actions(old(out)@) + swap_actions(a, b),
{
    push_cx(out, a, b);
    push_cx(out, b, a);
    push_cx(out, a, b);
    assert(actions(out@) =~= actions(old(out)@) + swap_actions(a, b));
}

fn push_sqrt_zz(out: &mut Vec<Instruction>, a: usize, b: usize, adjoint: bool)
    ensures
        all_addressable(old(out)@) && register_fits(a + 1) && register_fits(b + 1) ==> all_addressable(
            final(out)@,
        ),
        actions(final(out)@) == actions(old(out)@) + sqrt_zz_actions(a, b, adjoint),
{
    push_cx(out, a, b);
    let phase: Gate1Q = if adjoint {
        Gate1Q::SDag
    } else {
        Gate1Q::S
    };
    push_gate1(out, phase, b);
    push_cx(out, a, b);
    assert(actions(out@) =~= actions(old(out)@) + sqrt_zz_actions(a, b, adjoint));
}

fn push_sqrt_pair(out: &mut Vec<Instruction>, basis: PauliBasis, a: usize, b: usize, adjoint: bool)
    ensures
        all_addressable(old(out)@) && register_fits(a + 1) && register_fits(b + 1) ==> all_addressable(
            final(out)@,
        ),
        actions(final(out)@) == actions(old(out)@) + sqrt_pair_actions(basis, a, b, adjoint),
{
    let rotations: Option<(Gate1Q, Gate1Q)> = match basis {
        PauliBasis::X => Some((Gate1Q::H, Gate1Q::H)),
        PauliBasis::Y => Some((Gate1Q::SqrtX, Gate1Q::SqrtXDag)),
        PauliBasis::Z => None,
    };
    match rotations {
        Some((before, after)) => {
            push_gate1(out, before, a);
            push_gate1(out, before, b);
            push_sqrt_zz(out, a, b, adjoint);
            push_gate1(out, after, a);
            push_gate1(out, after, b);
        },
        None => {
            push_sqrt_zz(out, a, b, adjoint);
        },
    }
    assert(actions(out@) =~= actions(old(out)@) + sqrt_pair_actions(basis, a, b, adjoint));
}

fn push_pair(out: &mut Vec<Instruction>, kind: CircuitInstructionKind, a: usize, b: usize)
    requires
        is_pair_kind(kind),
    ensures
        all_addressable(old(out)@) && register_fits(a + 1) && register_fits(b + 1) ==> all_addressable(
            final(out)@,
        ),
        actions(final(out)@) == actions(old(out)@) + pair_actions(kind, a, b),
{
    if let Some((control, target)) = gate2_for(kind) {
        push_gate2(out, control, target, a, b);
        assert(actions(out@) =~= actions(old(out)@) + pair_actions(kind, a, b));
        return;
    }
    match kind {
        CircuitInstructionKind::Swap => push_swap(out, a, b),
        CircuitInstructionKind::CxSwap => {
            push_cx(out, a, b);
            push_swap(out, a, b);
        },
        CircuitInstructionKind::CzSwap => {
            push_gate2(out, PauliBasis::Z, PauliBasis::Z, a, b);
            push_swap(out, a, b);
        },
        CircuitInstructionKind::SwapCx => {
            push_swap(out, a, b);
            push_cx(out, a, b);
        },
        CircuitInstructionKind::ISwap => {
            push_gate2(out, PauliBasis::Z, PauliBasis::Z, a, b);
            push_gate1(out, Gate1Q::S, a);
            push_gate1(out, Gate1Q::S, b);
            push_swap(out, a, b);
        },
        CircuitInstructionKind::ISwapDag => {
            push_gate2(out, PauliBasis::Z, PauliBasis::Z, a, b);
            push_gate1(out, Gate1Q::SDag, a);
            push_gate1(out, Gate1Q::SDag, b);
            push_swap(out, a, b);
        },
        CircuitInstructionKind::SqrtXx => push_sqrt_pair(out, PauliBasis::X, a, b, false),
        CircuitInstructionKind::SqrtXxDag => push_sqrt_pair(out, PauliBasis::X, a, b, true),
        CircuitInstructionKind::SqrtYy => push_sqrt_pair(out, PauliBasis::Y, a, b, false),
        CircuitInstructionKind::SqrtYyDag => push_sqrt_pair(out, PauliBasis::Y, a, b, true),
        CircuitInstructionKind::SqrtZz => push_sqrt_pair(out, PauliBasis::Z, a, b, false),
        _ => push_sqrt_pair(out, PauliBasis::Z, a, b, true),
    }
    assert(actions(out@) =~= actions(old(out)@) + pair_actions(kind, a, b));
}

/// The string of a product.
fn product_pauli(product: &CircuitPauliProduct) -> (r: PauliString)
    requires
        product.pauli.wf(),
    ensures
        r.wf(),
        r.nqubits == product.pauli.nqubits,
        r.op() == product_op(*product),
{
    let mut pauli: PauliString = product.pauli.duplicate();
    assert(pauli.op() =~= product.pauli.op());
    if product.inverted {
        pauli.phase_shift(2);
    }
    pauli
}

fn letter_of_digit(digit: usize) -> (r: Pauli)
    requires
        digit < 4,
    ensures
        r == digit_letter(digit as int),
{
    if digit == 0 {
        Pauli::I
    } else if digit == 1 {
        Pauli::X
    } else if digit == 2 {
        Pauli::Y
    } else {
        Pauli::Z
    }
}

/// The string that a base-4 code spells on a chunk of qubits.
fn pauli_from_code(nqubits: usize, qubits: &[usize], code: usize) -> (r: PauliString)
    requires
        nqubits + 63 <= usize::MAX,
        qubits@.len() <= 3,
        forall|i: int| 0 <= i < qubits@.len() ==> #[trigger] qubits@[i] < nqubits,
    ensures
        r.wf(),
        r.nqubits == nqubits,
        r.op() == code_op(nqubits as int, qubits@, code as int, qubits@.len() as int),
{
    let mut pauli: PauliString = PauliString::new(nqubits);
    let mut rest: usize = code;
    let mut k: usize = 0;
    let ghost n = nqubits as int;
    while k < qubits.len()
        invariant
            k <= qubits@.len(),
            qubits@.len() <= 3,
            n == nqubits,
            forall|i: int| 0 <= i < qubits@.len() ==> #[trigger] qubits@[i] < nqubits,
            pauli.wf(),
            pauli.nqubits == nqubits,
            pauli.op() == code_op(n, qubits@, code as int, k as int),
            k == 0 ==> rest == code,
            k == 1 ==> rest == code / 4,
            k == 2 ==> rest == code / 16,
        decreases qubits@.len() - k,
    {
        let qubit: usize = qubits[qubits.len() - 1 - k];
        let letter: Pauli = letter_of_digit(rest % 4);
        let ghost before = pauli;
        pauli.set(qubit, letter);
        proof {
            let q = qubit as int;
            let want = with_letter(before.op(), q, letter);
            assert(pauli.op().x =~= want.x);
            assert(pauli.op().z =~= want.z);
            assert((before.letter(q) == Pauli::Y) == (before.op().x[q] && before.op().z[q]));
            assert(pauli.op() == want);
            assert(digit_letter(code_digit(code as int, k as int)) == letter);
        }
        rest = rest / 4;
        k += 1;
    }
    pauli
}

/// The non-identity strings on a chunk of qubits, in code order.
fn pauli_channel_alternatives(nqubits: usize, qubits: &[usize]) -> (r: Vec<PauliString>)
    requires
        nqubits + 63 <= usize::MAX,
        1 <= qubits@.len() <= 3,
        forall|i: int| 0 <= i < qubits@.len() ==> #[trigger] qubits@[i] < nqubits,
    ensures
        register_fits(nqubits as int) ==> all_on_register(r@),
        ops(r@) == channel_ops(nqubits as int, qubits@),
        r@.len() == code_count(qubits@.len() as int) - 1,
{
    let count: usize = if qubits.len() == 1 {
        4
    } else if qubits.len() == 2 {
        16
    } else {
        64
    };
    let mut out: Vec<PauliString> = Vec::new();
    let mut code: usize = 1;
    while code < count
        invariant
            1 <= code <= count,
            count == code_count(qubits@.len() as int),
            nqubits + 63 <= usize::MAX,
            1 <= qubits@.len() <= 3,
            forall|i: int| 0 <= i < qubits@.len() ==> #[trigger] qubits@[i] < nqubits,
            out@.len() == code - 1,
            forall|i: int|
                0 <= i < out@.len() ==> (#[trigger] out@[i]).wf() && out@[i].nqubits == nqubits,
            forall|i: int|
                0 <= i < out@.len() ==> (#[trigger] out@[i]).op() == code_op(
                    nqubits as int,
                    qubits@,
                    i + 1,
                    qubits@.len() as int,
                ),
        decreases count - code,
    {
        out.push(pauli_from_code(nqubits, qubits, code));
        code += 1;
    }
    assert(ops(out@) =~= channel_ops(nqubits as int, qubits@));
    out
}

fn whole_share_list(probabilities: &Vec<u64>) -> (r: Vec<Share>)
    ensures
        r@ == whole_shares(probabilities@),
{
    let mut out: Vec<Share> = Vec::new();
    let mut i: usize = 0;
    while i < probabilities.len()
        invariant
            i <= probabilities@.len(),
            out@ == whole_shares(probabilities@).take(i as int),
        decreases probabilities@.len() - i,
    {
        out.push(Share { bits: probabilities[i], parts: 1 });
        assert(out@ =~= whole_shares(probabilities@).take(i + 1));
        i += 1;
    }
    assert(out@ =~= whole_shares(probabilities@));
    out
}

fn even_share_list(bits: u64, parts: usize) -> (r: Vec<Share>)
    ensures
        r@ == even_shares(bits, parts as nat),
{
    let mut out: Vec<Share> = Vec::new();
    let mut i: usize = 0;
    while i < parts
        invariant
            i <= parts,
            out@ == even_shares(bits, parts as nat).take(i as int),
        decreases parts - i,
    {
        out.push(Share { bits, parts });
        assert(out@ =~= even_shares(bits, parts as nat).take(i + 1));
        i += 1;
    }
    assert(out@ =~= even_shares(bits, parts as nat));
    out
}

fn push_random_pauli(
    out: &mut Vec<Instruction>,
    probabilities: Vec<Share>,
    alternatives: Vec<PauliString>,
    heralded: bool,
)
    ensures
        all_addressable(old(out)@) && all_on_register(alternatives@) ==> all_addressable(
            final(out)@,
        ),
        actions(final(out)@) == actions(old(out)@).push(
            (Action::RandomPauli {
                probabilities: probabilities@,
                alternatives: ops(alternatives@),
                heralded,
            }),
        ),
{
    push_action(out, Instruction::RandomPauli { probabilities, alternatives, heralded });
}

fn basis_of(kind: CircuitInstructionKind) -> (r: PauliBasis)
    ensures
        r == kind_basis(kind),
{
    match kind {
        CircuitInstructionKind::MX | CircuitInstructionKind::Mrx | CircuitInstructionKind::RX
        | CircuitInstructionKind::FeedbackX | CircuitInstructionKind::XError => PauliBasis::X,
        CircuitInstructionKind::MY | CircuitInstructionKind::Mry | CircuitInstructionKind::RY
        | CircuitInstructionKind::FeedbackY | CircuitInstructionKind::YError => PauliBasis::Y,
        _ => PauliBasis::Z,
    }
}

fn arity_of(kind: CircuitInstructionKind) -> (r: usize)
    ensures
        r == channel_arity(kind),
        1 <= r <= 3,
{
    match kind {
        CircuitInstructionKind::Depolarize1 | CircuitInstructionKind::PauliChannel1 => 1,
        CircuitInstructionKind::Depolarize2 | CircuitInstructionKind::PauliChannel2 => 2,
        _ => 3,
    }
}

/// One letter on one qubit.
fn letter_string(nqubits: usize, qubit: usize, letter: Pauli) -> (r: PauliString)
    requires
        nqubits + 63 <= usize::MAX,
        qubit < nqubits,
    ensures
        r.wf(),
        r.nqubits == nqubits,
        r.op() == letter_op(nqubits as int, qubit as int, letter),
{
    let r: PauliString = PauliString::single(nqubits, qubit, letter);
    assert(r.op() =~= letter_op(nqubits as int, qubit as int, letter));
    r
}

/// How many operands an instruction has.
fn count_operands(ins: &CircuitInstruction) -> (r: usize)
    ensures
        r == operand_count(*ins),
{
    let kind: CircuitInstructionKind = ins.kind;
    if gate1_for(kind).is_some() {
        return ins.qubits.len();
    }
    if is_pair(kind) {
        return ins.qubits.len() / 2;
    }
    match kind {
        CircuitInstructionKind::Tick => 0,
        CircuitInstructionKind::PauliRotation | CircuitInstructionKind::Mpp
        | CircuitInstructionKind::ExpVal => ins.pauli_products.len(),
        CircuitInstructionKind::MZ | CircuitInstructionKind::MX | CircuitInstructionKind::MY
        | CircuitInstructionKind::Mrz | CircuitInstructionKind::Mrx | CircuitInstructionKind::Mry
        | CircuitInstructionKind::MPad => ins.measurement_targets.len(),
        CircuitInstructionKind::Depolarize1 | CircuitInstructionKind::Depolarize2
        | CircuitInstructionKind::Depolarize3 | CircuitInstructionKind::PauliChannel1
        | CircuitInstructionKind::PauliChannel2 | CircuitInstructionKind::PauliChannel3 =>
            ins.qubits.len() / arity_of(kind),
        CircuitInstructionKind::PauliProductChannel => 1,
        CircuitInstructionKind::FeedbackX | CircuitInstructionKind::FeedbackY
        | CircuitInstructionKind::FeedbackZ => ins.feedback_targets.len(),
        _ => ins.qubits.len(),
    }
}

fn is_pair(kind: CircuitInstructionKind) -> (r: bool)
    ensures
        r == is_pair_kind(kind),
{
    if gate2_for(kind).is_some() {
        return true;
    }
    match kind {
        CircuitInstructionKind::Swap | CircuitInstructionKind::CxSwap
        | CircuitInstructionKind::CzSwap | CircuitInstructionKind::SwapCx
        | CircuitInstructionKind::ISwap | CircuitInstructionKind::ISwapDag
        | CircuitInstructionKind::SqrtXx | CircuitInstructionKind::SqrtXxDag
        | CircuitInstructionKind::SqrtYy | CircuitInstructionKind::SqrtYyDag
        | CircuitInstructionKind::SqrtZz | CircuitInstructionKind::SqrtZzDag => true,
        _ => false,
    }
}

/// The qubits of chunk `i`.
fn chunk_of(qubits: &Vec<usize>, arity: usize, i: usize) -> (r: Vec<usize>)
    requires
        1 <= arity <= 3,
        arity * i + arity <= qubits@.len(),
    ensures
        r@ == chunk(qubits@, arity as int, i as int),
{
    let len: usize = qubits.len();
    assert(0 <= arity * i) by (nonlinear_arith);
    assert(arity * i <= len);
    let start: usize = arity * i;
    let mut out: Vec<usize> = Vec::new();
    let mut k: usize = 0;
    while k < arity
        invariant
            k <= arity,
            start == arity * i,
            len == qubits@.len(),
            arity * i + arity <= len,
            out@ == chunk(qubits@, arity as int, i as int).take(k as int),
        decreases arity - k,
    {
        out.push(qubits[start + k]);
        assert(out@ =~= chunk(qubits@, arity as int, i as int).take(k + 1));
        k += 1;
    }
    assert(out@ =~= chunk(qubits@, arity as int, i as int));
    out
}

/// The strings of a list of products.
fn product_list(products: &Vec<CircuitPauliProduct>) -> (r: Vec<PauliString>)
    requires
        forall|i: int| 0 <= i < products@.len() ==> (#[trigger] products@[i]).pauli.wf(),
    ensures
        (forall|i: int|
            0 <= i < products@.len() ==> register_fits(
                (#[trigger] products@[i]).pauli.nqubits as int,
            )) ==> all_on_register(r@),
        ops(r@) == Seq::new(products@.len(), |k: int| product_op(products@[k])),
{
    let mut out: Vec<PauliString> = Vec::new();
    let mut i: usize = 0;
    while i < products.len()
        invariant
            i <= products@.len(),
            out@.len() == i,
            forall|k: int| 0 <= k < products@.len() ==> (#[trigger] products@[k]).pauli.wf(),
            forall|k: int| 0 <= k < i ==> (#[trigger] out@[k]).op() == product_op(products@[k]),
            forall|k: int|
                0 <= k < i ==> (#[trigger] out@[k]).wf() && out@[k].nqubits
                    == products@[k].pauli.nqubits,
        decreases products@.len() - i,
    {
        out.push(product_pauli(&products[i]));
        i += 1;
    }
    assert(ops(out@) =~= Seq::new(products@.len(), |k: int| product_op(products@[k])));
    out
}

/// The four letters on one qubit, identity first.
fn erasure_alternatives(nqubits: usize, qubit: usize) -> (r: Vec<PauliString>)
    requires
        nqubits + 63 <= usize::MAX,
        qubit < nqubits,
    ensures
        register_fits(nqubits as int) ==> all_on_register(r@),
        ops(r@) == Seq::new(4, |k: int| code_op(nqubits as int, seq![qubit], k, 1)),
{
    let mut list: Vec<usize> = Vec::new();
    list.push(qubit);
    assert(list@ =~= seq![qubit]);
    let mut out: Vec<PauliString> = Vec::new();
    let mut code: usize = 0;
    while code < 4
        invariant
            code <= 4,
            nqubits + 63 <= usize::MAX,
            qubit < nqubits,
            list@ == seq![qubit],
            out@.len() == code,
            forall|k: int|
                0 <= k < out@.len() ==> (#[trigger] out@[k]).wf() && out@[k].nqubits == nqubits,
            forall|k: int|
                0 <= k < out@.len() ==> (#[trigger] out@[k]).op() == code_op(
                    nqubits as int,
                    seq![qubit],
                    k,
                    1,
                ),
        decreases 4 - code,
    {
        out.push(pauli_from_code(nqubits, list.as_slice(), code));
        code += 1;
    }
    assert(ops(out@) =~= Seq::new(4, |k: int| code_op(nqubits as int, seq![qubit], k, 1)));
    out
}

/// Appends a measurement of one target, and the reset where the kind asks.
fn push_measure(
    out: &mut Vec<Instruction>,
    nqubits: usize,
    kind: CircuitInstructionKind,
    target: MeasurementTarget,
    probability: u64,
)
    requires
        nqubits + 63 <= usize::MAX,
        target.qubit < nqubits,
    ensures
        all_addressable(old(out)@) && register_fits(nqubits as int) ==> all_addressable(
            final(out)@,
        ),
        actions(final(out)@) == actions(old(out)@) + measure_actions(
            nqubits as int,
            kind,
            target,
            probability,
        ),
{
    let basis: PauliBasis = basis_of(kind);
    let mut observable: PauliString = letter_string(nqubits, target.qubit, basis.to_pauli());
    if target.inverted {
        observable.phase_shift(2);
    }
    push_action(out, Instruction::MeasureWithReadoutError { observable, probability });
    match kind {
        CircuitInstructionKind::Mrz | CircuitInstructionKind::Mrx | CircuitInstructionKind::Mry => {
            push_action(out, Instruction::Reset { basis, qubit: target.qubit });
        },
        _ => {},
    }
    assert(actions(out@) =~= actions(old(out)@) + measure_actions(
        nqubits as int,
        kind,
        target,
        probability,
    ));
}

/// Appends what one channel application becomes.
fn push_channel(out: &mut Vec<Instruction>, nqubits: usize, ins: &CircuitInstruction, i: usize)
    requires
        nqubits + 63 <= usize::MAX,
        ins.wf(nqubits as int),
        i < operand_count(*ins),
        match ins.kind {
            CircuitInstructionKind::Depolarize1 | CircuitInstructionKind::Depolarize2
            | CircuitInstructionKind::Depolarize3 | CircuitInstructionKind::PauliChannel1
            | CircuitInstructionKind::PauliChannel2 | CircuitInstructionKind::PauliChannel3 => true,
            _ => false,
        },
    ensures
        all_addressable(old(out)@) && register_fits(nqubits as int) ==> all_addressable(
            final(out)@,
        ),
        actions(final(out)@) == actions(old(out)@) + operand_actions(nqubits as int, *ins, i as int),
{
    let arity: usize = arity_of(ins.kind);
    assert(arity * i + arity <= ins.qubits@.len()) by (nonlinear_arith)
        requires
            i < ins.qubits@.len() as int / arity as int,
            1 <= arity,
    ;
    let qubits: Vec<usize> = chunk_of(&ins.qubits, arity, i);
    assert forall|k: int| 0 <= k < qubits@.len() implies #[trigger] qubits@[k] < nqubits by {
        assert(qubits@[k] == ins.qubits@[arity * i + k]);
    }
    let alternatives: Vec<PauliString> = pauli_channel_alternatives(nqubits, qubits.as_slice());
    let probabilities: Vec<Share> = match ins.kind {
        CircuitInstructionKind::Depolarize1 | CircuitInstructionKind::Depolarize2
        | CircuitInstructionKind::Depolarize3 => even_share_list(
            ins.probability,
            alternatives.len(),
        ),
        _ => whole_share_list(&ins.probabilities),
    };
    push_random_pauli(out, probabilities, alternatives, false);
    assert(actions(out@) =~= actions(old(out)@) + operand_actions(nqubits as int, *ins, i as int));
}

/// Appends what operand `i` of an instruction becomes.
fn push_operand(out: &mut Vec<Instruction>, nqubits: usize, ins: &CircuitInstruction, i: usize)
    requires
        nqubits + 63 <= usize::MAX,
        ins.wf(nqubits as int),
        i < operand_count(*ins),
    ensures
        all_addressable(old(out)@) && register_fits(nqubits as int) && ins.addressable() ==> all_addressable(
            final(out)@,
        ),
        actions(final(out)@) == actions(old(out)@) + operand_actions(nqubits as int, *ins, i as int),
{
    let kind: CircuitInstructionKind = ins.kind;
    let ghost n = nqubits as int;
    if let Some(gate) = gate1_for(kind) {
        push_gate1(out, gate, ins.qubits[i]);
        assert(actions(out@) =~= actions(old(out)@) + operand_actions(n, *ins, i as int));
        return;
    }
    if is_pair(kind) {
        let len: usize = ins.qubits.len();
        assert(2 * i + 1 < len);
        push_pair(out, kind, ins.qubits[2 * i], ins.qubits[2 * i + 1]);
        assert(actions(out@) =~= actions(old(out)@) + operand_actions(n, *ins, i as int));
        return;
    }
    match kind {
        CircuitInstructionKind::T => push_action(
            out,
            Instruction::T { basis: PauliBasis::Z, qubit: ins.qubits[i], adjoint: false },
        ),
        CircuitInstructionKind::TDag => push_action(
            out,
            Instruction::T { basis: PauliBasis::Z, qubit: ins.qubits[i], adjoint: true },
        ),
        CircuitInstructionKind::PauliRotation => push_action(
            out,
            Instruction::PauliRotation {
                axis: product_pauli(&ins.pauli_products[i]),
                kernel_angle: ins.kernel_angle,
            },
        ),
        CircuitInstructionKind::MZ | CircuitInstructionKind::MX | CircuitInstructionKind::MY
        | CircuitInstructionKind::Mrz | CircuitInstructionKind::Mrx
        | CircuitInstructionKind::Mry => push_measure(
            out,
            nqubits,
            kind,
            ins.measurement_targets[i],
            ins.probability,
        ),
        CircuitInstructionKind::RZ | CircuitInstructionKind::RX | CircuitInstructionKind::RY =>
            push_action(out, Instruction::Reset { basis: basis_of(kind), qubit: ins.qubits[i] }),
        CircuitInstructionKind::Mpp => push_action(
            out,
            Instruction::MeasureWithReadoutError {
                observable: product_pauli(&ins.pauli_products[i]),
                probability: ins.probability,
            },
        ),
        CircuitInstructionKind::ExpVal => push_action(
            out,
            Instruction::Expectation(product_pauli(&ins.pauli_products[i])),
        ),
        CircuitInstructionKind::XError | CircuitInstructionKind::YError
        | CircuitInstructionKind::ZError => {
            let mut probabilities: Vec<Share> = Vec::new();
            probabilities.push(Share { bits: ins.probability, parts: 1 });
            let mut alternatives: Vec<PauliString> = Vec::new();
            alternatives.push(letter_string(nqubits, ins.qubits[i], basis_of(kind).to_pauli()));
            assert(probabilities@ =~= seq![Share { bits: ins.probability, parts: 1 }]);
            assert(ops(alternatives@) =~= seq![
                letter_op(n, ins.qubits@[i as int] as int, kind_basis(kind).letter()),
            ]);
            push_random_pauli(out, probabilities, alternatives, false);
        },
        CircuitInstructionKind::Depolarize1 | CircuitInstructionKind::Depolarize2
        | CircuitInstructionKind::Depolarize3 | CircuitInstructionKind::PauliChannel1
        | CircuitInstructionKind::PauliChannel2 | CircuitInstructionKind::PauliChannel3 =>
            push_channel(out, nqubits, ins, i),
        CircuitInstructionKind::PauliProductChannel => {
            let probabilities: Vec<Share> = whole_share_list(&ins.probabilities);
            let alternatives: Vec<PauliString> = product_list(&ins.pauli_products);
            push_random_pauli(out, probabilities, alternatives, false);
        },
        CircuitInstructionKind::HeraldedErase => {
            let alternatives: Vec<PauliString> = erasure_alternatives(nqubits, ins.qubits[i]);
            push_random_pauli(out, even_share_list(ins.probability, 4), alternatives, true);
        },
        CircuitInstructionKind::HeraldedPauliChannel1 => {
            let alternatives: Vec<PauliString> = erasure_alternatives(nqubits, ins.qubits[i]);
            push_random_pauli(out, whole_share_list(&ins.probabilities), alternatives, true);
        },
        CircuitInstructionKind::MPad => {
            let target: MeasurementTarget = ins.measurement_targets[i];
            push_action(
                out,
                Instruction::Record {
                    value: (target.qubit != 0) != target.inverted,
                    flip_probability: ins.probability,
                },
            );
        },
        CircuitInstructionKind::FeedbackX | CircuitInstructionKind::FeedbackY
        | CircuitInstructionKind::FeedbackZ => {
            let target: FeedbackTarget = ins.feedback_targets[i];
            push_action(
                out,
                Instruction::ConditionalPauli {
                    basis: basis_of(kind),
                    qubit: target.qubit,
                    control: target.record - 1,
                },
            );
        },
        _ => {},
    }
    assert(actions(out@) =~= actions(old(out)@) + operand_actions(n, *ins, i as int));
}

/// Translates a circuit into batch instructions.
fn tableau_instructions(circuit: &Circuit) -> (r: Vec<Instruction>)
    requires
        circuit.wf(),
    ensures
        circuit.addressable() ==> all_addressable(r@),
        actions(r@) == circuit_actions(*circuit),
{
    let mut out: Vec<Instruction> = Vec::new();
    let ghost n = circuit.nqubits as int;
    let ghost whole = |k: int| instruction_actions(n, circuit.instructions@[k]);
    let mut k: usize = 0;
    assert(actions(out@) =~= Seq::<Action>::empty());
    while k < circuit.instructions.len()
        invariant
            k <= circuit.instructions@.len(),
            circuit.wf(),
            n == circuit.nqubits,
            whole == (|k: int| instruction_actions(n, circuit.instructions@[k])),
            actions(out@) == concat_below(whole, k as int),
            circuit.addressable() ==> all_addressable(out@),
        decreases circuit.instructions@.len() - k,
    {
        let ins: &CircuitInstruction = &circuit.instructions[k];
        let count: usize = count_operands(ins);
        let ghost before = actions(out@);
        let ghost each = |i: int| operand_actions(n, *ins, i);
        let mut i: usize = 0;
        assert(before + concat_below(each, 0) =~= before);
        while i < count
            invariant
                i <= count,
                count == operand_count(*ins),
                n == circuit.nqubits,
                n + 63 <= usize::MAX,
                ins.wf(n),
                each == (|i: int| operand_actions(n, *ins, i)),
                actions(out@) == before + concat_below(each, i as int),
                circuit.addressable() ==> register_fits(n) && ins.addressable() && all_addressable(
                    out@,
                ),
            decreases count - i,
        {
            push_operand(&mut out, circuit.nqubits, ins, i);
            assert(actions(out@) =~= before + concat_below(each, i + 1));
            i += 1;
        }
        assert(whole(k as int) == concat_below(each, count as int));
        k += 1;
    }
    out
}

impl Instruction {
    /// Translates a circuit once into instructions that a batch can replay.
    pub fn from_circuit(circuit: &Circuit) -> (r: Vec<Instruction>)
        requires
            circuit.wf(),
        ensures
            circuit.addressable() ==> all_addressable(r@),
            actions(r@) == circuit_actions(*circuit),
    {
        tableau_instructions(circuit)
    }
}

} // verus!
