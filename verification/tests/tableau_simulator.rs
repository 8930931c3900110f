//! The tableau simulator over double-precision amplitudes.
use std::f64::consts::{FRAC_1_SQRT_2, PI};

use num_complex::Complex64;
use paulimer::{Clifford, CliffordMutable, CliffordUnitary, DensePauli, Pauli as PaulimerPauli, PauliMutable};
use rand::rngs::SmallRng;
use rand::{RngExt, SeedableRng};
use ticit::batch::BatchOutcome;
use ticit::evolve::{CosetPairs, MeasureResult, TermKernels, Turn};
use ticit::gates::Gate1Q;
use ticit::instruction::{
    Circuit, CircuitInstruction, CircuitInstructionKind, CircuitPauliProduct, FeedbackTarget,
    Instruction, MeasurementTarget, Share,
};
use ticit::pauli::{Pauli, PauliBasis, PauliString, RowPauli};
use ticit::sim_error::SimError;
use ticit::simulator::{PairRewrite, TableauSimulator};

const TOL: f64 = 1e-9;

// ---------------------------------------------------------------------------
// Arithmetic
// ---------------------------------------------------------------------------
struct Doubles;

fn next_random(rng: u64) -> (u64, f64) {
    let state = rng.wrapping_add(0x9e37_79b9_7f4a_7c15);
    let mut z = state;
    z = (z ^ (z >> 30)).wrapping_mul(0xbf58_476d_1ce4_e5b9);
    z = (z ^ (z >> 27)).wrapping_mul(0x94d0_49bb_1331_11eb);
    z ^= z >> 31;
    (state, (z >> 11) as f64 / (1u64 << 53) as f64)
}

fn i_pow(k: u8) -> Complex64 {
    match k & 3 {
        0 => Complex64::new(1.0, 0.0),
        1 => Complex64::new(0.0, 1.0),
        2 => Complex64::new(-1.0, 0.0),
        _ => Complex64::new(0.0, -1.0),
    }
}

fn sign(odd: bool) -> f64 {
    if odd {
        -1.0
    } else {
        1.0
    }
}

/// The cosine, and the coefficient of the operator.
fn turn_weights(turn: Turn) -> (f64, f64) {
    match turn {
        Turn::Eighth { adjoint } => ((PI / 8.0).cos(), sign(!adjoint) * (PI / 8.0).sin()),
        Turn::Angle { kernel_angle } => {
            let angle = f64::from_bits(kernel_angle);
            (angle.cos(), -angle.sin())
        }
    }
}

fn plus_probability(expectation: u64) -> f64 {
    ((1.0 + f64::from_bits(expectation)) / 2.0).clamp(0.0, 1.0)
}

fn fixed(probability: f64) -> bool {
    probability <= TOL || 1.0 - probability <= TOL
}

/// Prunes and rescales staged amplitudes.
fn finish(
    values: Vec<Complex64>,
    sent: Vec<Option<Complex64>>,
    epsilon: u64,
    unitary: bool,
) -> PairRewrite<Complex64> {
    let eps_sq = f64::from_bits(epsilon).powi(2);
    let mut norm = 0.0;
    let mut pruned = false;
    let keep: Vec<bool> = values.iter().map(|v| v.norm_sqr() > eps_sq).collect();
    for (value, kept) in values.iter().zip(&keep) {
        if *kept {
            norm += value.norm_sqr();
        } else {
            pruned = true;
        }
    }
    let sent: Vec<Option<Complex64>> = sent
        .into_iter()
        .map(|s| match s {
            Some(v) if v.norm_sqr() > eps_sq => {
                norm += v.norm_sqr();
                Some(v)
            }
            Some(_) => {
                pruned = true;
                None
            }
            None => None,
        })
        .collect();
    let scale = if norm > 0.0 && (pruned || !unitary) {
        norm.sqrt().recip()
    } else {
        1.0
    };
    PairRewrite {
        values: values.into_iter().map(|v| v * scale).collect(),
        keep,
        sent: sent.into_iter().map(|s| s.map(|v| v * scale)).collect(),
    }
}

impl TermKernels<Complex64> for Doubles {
    fn turn_diagonal(&self, turn: Turn, values: Vec<Complex64>, plus: Vec<bool>) -> Vec<Complex64> {
        let (cos, weight) = turn_weights(turn);
        let factor = Complex64::new(cos, weight);
        values
            .into_iter()
            .zip(plus)
            .map(|(v, p)| v * if p { factor } else { factor.conj() })
            .collect()
    }

    fn turn_pairs(
        &self,
        turn: Turn,
        pairs: CosetPairs,
        values: Vec<Complex64>,
        epsilon: u64,
    ) -> PairRewrite<Complex64> {
        let (cos, weight) = turn_weights(turn);
        let g = Complex64::new(0.0, weight) * i_pow(pairs.phase);
        let flip = sign(pairs.flip);
        let mut out = Vec::new();
        let mut sent = Vec::new();
        for (&x, slot) in values.iter().zip(&pairs.slots) {
            let sign_c = sign(slot.sign);
            match slot.partner {
                Some(j) => {
                    out.push(cos * x + g * (sign_c * flip) * values[j]);
                    sent.push(None);
                }
                None => {
                    out.push(cos * x);
                    sent.push(Some(g * sign_c * x));
                }
            }
        }
        finish(out, sent, epsilon, true)
    }

    fn expect_diagonal(&self, values: Vec<Complex64>, plus: Vec<bool>) -> u64 {
        let e: f64 = values
            .iter()
            .zip(plus)
            .map(|(v, p)| sign(!p) * v.norm_sqr())
            .sum();
        e.to_bits()
    }

    fn expect_pairs(&self, pairs: CosetPairs, values: Vec<Complex64>) -> u64 {
        let zeta = i_pow(pairs.phase);
        let mut e = 0.0;
        for (&x, slot) in values.iter().zip(&pairs.slots) {
            if let Some(j) = slot.partner {
                e += (zeta * sign(slot.sign) * x * values[j].conj()).re;
            }
        }
        f64::to_bits(e)
    }

    fn bounded(&self, expectation: u64) -> u64 {
        f64::from_bits(expectation).clamp(-1.0, 1.0).to_bits()
    }

    fn draw(&self, expectation: u64, rng: u64) -> (u64, bool) {
        let (next, r) = next_random(rng);
        (next, r >= plus_probability(expectation))
    }

    fn chance(&self, expectation: u64, outcome: bool) -> u64 {
        let p = plus_probability(expectation);
        (if outcome { 1.0 - p } else { p }).to_bits()
    }

    fn negligible(&self, probability: u64) -> bool {
        f64::from_bits(probability) < TOL
    }

    fn certain(&self, expectation: u64) -> bool {
        !(TOL..=1.0 - TOL).contains(&plus_probability(expectation))
    }

    fn project_diagonal(
        &self,
        values: Vec<Complex64>,
        kept: Vec<bool>,
        epsilon: u64,
    ) -> (Vec<Complex64>, Vec<bool>) {
        let eps_sq = f64::from_bits(epsilon).powi(2);
        let heavy: Vec<bool> = values.iter().map(|v| v.norm_sqr() > eps_sq).collect();
        let total: f64 = values
            .iter()
            .zip(kept.iter().zip(&heavy))
            .filter(|(_, (k, h))| **k && **h)
            .map(|(v, _)| v.norm_sqr())
            .sum();
        let scale = if total > 0.0 { total.sqrt().recip() } else { 1.0 };
        (values.into_iter().map(|v| v * scale).collect(), heavy)
    }

    fn project_pairs(
        &self,
        outcome: bool,
        pairs: CosetPairs,
        pivots: Vec<bool>,
        values: Vec<Complex64>,
        epsilon: u64,
    ) -> PairRewrite<Complex64> {
        let zeta = i_pow(pairs.phase);
        let compress = Complex64::new(0.0, -FRAC_1_SQRT_2) * i_pow((pairs.phase + 3) & 3);
        let ssign = sign(outcome);
        let shift_flip = sign(!pairs.flip);
        let shift_b = -shift_flip;
        let mut out = Vec::new();
        let mut sent = Vec::new();
        for ((&x, slot), &pivot) in values.iter().zip(&pairs.slots).zip(&pivots) {
            let y = slot.partner.map_or(Complex64::new(0.0, 0.0), |j| values[j]);
            let zc = sign(outcome && pivot);
            let zp = if outcome { -zc } else { 1.0 };
            let sb = sign(slot.sign);
            let sg = sign(slot.sign != pivot);
            let u = 0.5 * zc * x + (0.5 * ssign * (sb * shift_b) * zc) * zeta * y;
            let v = (0.5 * ssign * sb * zp) * zeta * x + 0.5 * zp * y;
            out.push(FRAC_1_SQRT_2 * u + compress * (sg * shift_flip) * v);
            sent.push(match slot.partner {
                Some(_) => None,
                None => Some(compress * sg * u + FRAC_1_SQRT_2 * v),
            });
        }
        finish(out, sent, epsilon, false)
    }

    fn bernoulli(&self, probability: u64, rng: u64) -> (u64, bool) {
        let (next, r) = next_random(rng);
        (next, r < f64::from_bits(probability))
    }

    fn alternative(
        &self,
        shares: Vec<Share>,
        rng: u64,
    ) -> Result<(u64, Option<usize>, u64), SimError> {
        let probabilities: Vec<f64> = shares
            .iter()
            .map(|s| f64::from_bits(s.bits) / s.parts as f64)
            .collect();
        let mut total = 0.0;
        for &p in &probabilities {
            if !(0.0..=1.0).contains(&p) {
                return Err(SimError::InvalidProbability(p.to_bits()));
            }
            total += p;
        }
        if total > 1.0 + 1e-12 {
            return Err(SimError::InvalidProbabilityDistribution);
        }
        if probabilities.is_empty() || total == 0.0 {
            return Ok((rng, None, f64::to_bits(total)));
        }
        let (next, r) = next_random(rng);
        let mut cumulative = 0.0;
        for (index, p) in probabilities.iter().enumerate() {
            cumulative += p;
            if r < cumulative {
                return Ok((next, Some(index), total.min(1.0).to_bits()));
            }
        }
        Ok((next, None, total.min(1.0).to_bits()))
    }

    fn event_chance(&self, probability: u64, happened: bool) -> (u64, bool) {
        let p = f64::from_bits(probability);
        ((if happened { p } else { 1.0 - p }).to_bits(), fixed(p))
    }

    fn readout_chance(&self, raw: MeasureResult, recorded: bool, probability: u64) -> (u64, bool) {
        let p = f64::from_bits(probability);
        let raw_p = f64::from_bits(raw.probability);
        let raw_true = if raw.outcome { raw_p } else { 1.0 - raw_p };
        let recorded_true = raw_true * (1.0 - p) + (1.0 - raw_true) * p;
        let result = if recorded { recorded_true } else { 1.0 - recorded_true };
        (result.to_bits(), fixed(result))
    }
}

// ---------------------------------------------------------------------------
// A simulator with that arithmetic
// ---------------------------------------------------------------------------
#[derive(Clone)]
struct Sim(TableauSimulator<Complex64>);

fn apply_pauli_words(v: &[Complex64], row: &RowPauli) -> Vec<Complex64> {
    let zeta = i_pow(row.phase);
    let (a, b) = match row.x.len() {
        0 => (0, 0),
        _ => (row.x[0] as usize, row.z[0] as usize),
    };
    let mut out = vec![Complex64::new(0.0, 0.0); v.len()];
    for (y, &val) in v.iter().enumerate() {
        out[y ^ a] += zeta * sign((y & b).count_ones() & 1 == 1) * val;
    }
    out
}

impl Sim {
    fn with_seed(n: usize, seed: u64) -> Sim {
        Sim(TableauSimulator::with_seed(n, seed, Complex64::new(1.0, 0.0)))
    }

    fn t(&mut self, q: usize) -> Result<(), SimError> {
        self.0.t(&Doubles, q)
    }

    fn t_dag(&mut self, q: usize) -> Result<(), SimError> {
        self.0.t_dag(&Doubles, q)
    }

    fn t_pauli(&mut self, axis: &PauliString, adjoint: bool) -> Result<(), SimError> {
        self.0.t_pauli(&Doubles, axis, adjoint)
    }

    fn measure(&mut self, q: usize) -> Result<MeasureResult, SimError> {
        self.0.measure(&Doubles, q)
    }

    fn measure_observable(&mut self, p: &PauliString) -> Result<MeasureResult, SimError> {
        self.0.measure_observable(&Doubles, p)
    }

    fn postselect_observable(&mut self, p: &PauliString, value: bool) -> Result<MeasureResult, SimError> {
        self.0.postselect_observable(&Doubles, p, value)
    }

    fn postselect_z(&mut self, q: usize, value: bool) -> Result<MeasureResult, SimError> {
        self.0.postselect_z(&Doubles, q, value)
    }

    fn peek_x(&self, q: usize) -> Result<f64, SimError> {
        self.0.peek_x(&Doubles, q).map(f64::from_bits)
    }

    fn peek_y(&self, q: usize) -> Result<f64, SimError> {
        self.0.peek_y(&Doubles, q).map(f64::from_bits)
    }

    fn peek_z(&self, q: usize) -> Result<f64, SimError> {
        self.0.peek_z(&Doubles, q).map(f64::from_bits)
    }

    fn peek(&self, p: &PauliString) -> Result<f64, SimError> {
        self.0.peek_observable_expectation(&Doubles, p).map(f64::from_bits)
    }

    fn apply_batch(&mut self, program: &[Instruction]) -> Result<BatchOutcome, SimError> {
        self.0.apply_batch(&Doubles, &program.to_vec())
    }

    fn rank(&self) -> usize {
        self.0.rank()
    }

    fn num_qubits(&self) -> usize {
        self.0.num_qubits()
    }

    /// The dense state, with an arbitrary global phase.
    fn state_vector(&self) -> Vec<Complex64> {
        let n = self.num_qubits();
        let dim = 1usize << n;
        let mut psi0 = vec![Complex64::new(0.0, 0.0); dim];
        for fiducial in 0..dim {
            let mut v = vec![Complex64::new(0.0, 0.0); dim];
            v[fiducial] = Complex64::new(1.0, 0.0);
            for q in 0..n {
                let projected = apply_pauli_words(&v, &self.0.core.r.image_z(q));
                for (dst, add) in v.iter_mut().zip(projected) {
                    *dst = (*dst + add) * 0.5;
                }
            }
            let norm: f64 = v.iter().map(Complex64::norm_sqr).sum();
            if norm > TOL {
                let scale = norm.sqrt().recip();
                for (dst, src) in psi0.iter_mut().zip(v) {
                    *dst = src * scale;
                }
                break;
            }
        }
        let mut out = vec![Complex64::new(0.0, 0.0); dim];
        for term in &self.0.terms {
            let mut v = psi0.clone();
            for q in 0..n {
                if term.label.0[q / 64] >> (q % 64) & 1 == 1 {
                    v = apply_pauli_words(&v, &self.0.core.r.image_x(q));
                }
            }
            for (dst, t) in out.iter_mut().zip(v) {
                *dst += term.value * t;
            }
        }
        out
    }
}

fn overlap_of(left: &[Complex64], right: &[Complex64]) -> f64 {
    assert_eq!(left.len(), right.len(), "compared registers differ in width");
    left.iter()
        .zip(right)
        .map(|(x, y)| x.conj() * y)
        .sum::<Complex64>()
        .norm()
}

fn assert_same_vector(got: &[Complex64], want: &[Complex64], what: &str) {
    let fidelity = overlap_of(got, want);
    assert!(
        (fidelity - 1.0).abs() < 1e-9,
        "{what}: states differ (overlap {fidelity})"
    );
}

fn assert_same_state(actual: &Sim, expected: &Sim, what: &str) {
    assert_same_vector(&actual.state_vector(), &expected.state_vector(), what);
}

fn single(n: usize, q: usize, letter: Pauli) -> PauliString {
    PauliString::single(n, q, letter)
}

// ---------------------------------------------------------------------------
// Gates
// ---------------------------------------------------------------------------
const ALL_GATE1: [Gate1Q; 23] = [
    Gate1Q::X,
    Gate1Q::Y,
    Gate1Q::Z,
    Gate1Q::H,
    Gate1Q::S,
    Gate1Q::SDag,
    Gate1Q::SqrtX,
    Gate1Q::SqrtXDag,
    Gate1Q::SqrtY,
    Gate1Q::SqrtYDag,
    Gate1Q::Hxy,
    Gate1Q::Hyz,
    Gate1Q::Hnxy,
    Gate1Q::Hnxz,
    Gate1Q::Hnyz,
    Gate1Q::Cxyz,
    Gate1Q::Czyx,
    Gate1Q::Cnxyz,
    Gate1Q::Cxnyz,
    Gate1Q::Cxynz,
    Gate1Q::Cnzyx,
    Gate1Q::Cznyx,
    Gate1Q::Czynx,
];

const BASES: [PauliBasis; 3] = [PauliBasis::X, PauliBasis::Y, PauliBasis::Z];

/// An entangled three-qubit state with magic on two qubits and no Pauli
/// eigenstate anywhere.
fn scrambled() -> Sim {
    let mut sim = Sim::with_seed(3, 0xC0FF_EE01);
    sim.0.h(0);
    sim.t(0).expect("magic injection stays under the rank cap");
    sim.0.h(1);
    sim.0.s(1);
    sim.0.cx(0, 1).expect("distinct operands");
    sim.0.sqrt_x(2);
    sim.t(2).expect("magic injection stays under the rank cap");
    sim.0.cz(1, 2).expect("distinct operands");
    sim
}

/// The frame of [`scrambled`].
fn scrambled_frame() -> CliffordUnitary {
    let mut frame = CliffordUnitary::identity(3);
    frame.left_mul_hadamard(0);
    frame.left_mul_hadamard(1);
    frame.left_mul_root_z(1);
    frame.left_mul_cx(0, 1);
    frame.left_mul_root_x(2);
    frame.left_mul_cz(1, 2);
    frame
}

fn signed_image(axis: PauliBasis, negated: bool) -> DensePauli {
    let mut image = match axis {
        PauliBasis::X => <DensePauli as PaulimerPauli>::x(0, 1),
        PauliBasis::Y => <DensePauli as PaulimerPauli>::y(0, 1),
        PauliBasis::Z => <DensePauli as PaulimerPauli>::z(0, 1),
    };
    if negated {
        image.add_assign_phase_exp(2);
    }
    image
}

fn reference_clifford(gate: Gate1Q) -> CliffordUnitary {
    let ((x_axis, x_neg), (z_axis, z_neg)) = gate.images();
    CliffordUnitary::from_preimages(&[signed_image(x_axis, x_neg), signed_image(z_axis, z_neg)])
        .inverse()
}

fn assert_row(row: &RowPauli, want: &DensePauli, what: &str) {
    assert_eq!(row.phase, want.xz_phase_exponent(), "{what}: phase");
    for q in 0..3 {
        assert_bits(row, want, q, what);
    }
}

fn assert_bits(row: &RowPauli, want: &DensePauli, q: usize, what: &str) {
    let x = want.x_bits().as_words()[0] >> q & 1;
    let z = want.z_bits().as_words()[0] >> q & 1;
    assert_eq!(row.x[0] >> q & 1, x, "{what}: x bit {q}");
    assert_eq!(row.z[0] >> q & 1, z, "{what}: z bit {q}");
}

#[test]
fn gate1_compositions_match_their_tableaux() {
    for gate in ALL_GATE1 {
        for qubit in 0..3 {
            let mut fast = scrambled();
            fast.0.gate1(gate, qubit);

            let mut reference = scrambled_frame();
            reference.left_mul_clifford(&reference_clifford(gate), &[qubit]);

            for q in 0..3 {
                let what = format!("{gate:?} on qubit {qubit}");
                assert_row(&fast.0.core.r.preimage_x(q), &reference.preimage_x(q), &what);
                assert_row(&fast.0.core.r.preimage_z(q), &reference.preimage_z(q), &what);
            }
        }
    }
}

#[test]
fn gate2_matches_controlled_pauli() {
    for control in BASES {
        for target in BASES {
            for (c, t) in [(0usize, 1usize), (1, 0), (0, 2)] {
                let mut fast = scrambled();
                fast.0.gate2(control, target, c, t).expect("distinct operands");

                let mut reference = scrambled();
                let n = reference.num_qubits();
                reference
                    .0
                    .controlled_pauli(
                        &single(n, c, control.to_pauli()),
                        &single(n, t, target.to_pauli()),
                    )
                    .expect("single-qubit axes on distinct qubits commute");

                assert_same_state(&fast, &reference, &format!("{control:?}C{target:?} on ({c},{t})"));
            }
        }
    }
}

#[test]
fn gate2_rejects_repeated_operands_without_mutating() {
    let mut sim = scrambled();
    let before = sim.state_vector();
    for control in BASES {
        for target in BASES {
            assert_eq!(
                sim.0.gate2(control, target, 1, 1),
                Err(SimError::RepeatedQubit(1))
            );
        }
    }
    assert_eq!(sim.state_vector(), before);
}

#[test]
fn controlled_paulis_refuse_what_they_cannot_represent() {
    let mut sim = scrambled();
    assert_eq!(
        sim.0.controlled_pauli(&single(3, 0, Pauli::X), &single(3, 0, Pauli::Z)),
        Err(SimError::NonCommutingControlledPaulis)
    );
    let mut signed = single(3, 0, Pauli::X);
    signed.phase_shift(2);
    assert_eq!(
        sim.0.controlled_pauli(&signed, &single(3, 1, Pauli::Z)),
        Err(SimError::InvalidControlledPauli)
    );
}

#[test]
fn t_basis_matches_t_pauli() {
    for basis in BASES {
        for adjoint in [false, true] {
            let mut fast = scrambled();
            fast.0
                .t_basis(&Doubles, basis, 1, adjoint)
                .expect("a single-qubit axis rotation stays under the cap");

            let mut reference = scrambled();
            let n = reference.num_qubits();
            reference
                .t_pauli(&single(n, 1, basis.to_pauli()), adjoint)
                .expect("a single-qubit axis rotation stays under the cap");

            assert_same_state(&fast, &reference, &format!("T_{basis:?} adjoint={adjoint}"));
        }
    }
}

#[test]
fn t_pauli_instruction_matches_the_engine() {
    let mut axis = PauliString::new(3);
    axis.set(0, Pauli::Z);
    axis.set(2, Pauli::Z);

    for adjoint in [false, true] {
        let mut batched = scrambled();
        batched
            .apply_batch(&[Instruction::TPauli { axis: axis.clone(), adjoint }])
            .expect("a two-qubit axis rotation stays under the cap");

        let mut manual = scrambled();
        manual
            .t_pauli(&axis, adjoint)
            .expect("a two-qubit axis rotation stays under the cap");

        assert_same_state(&batched, &manual, &format!("T_Z0Z2 adjoint={adjoint}"));
    }
}

type NamedGate = fn(&mut TableauSimulator<Complex64>, usize, usize) -> Result<(), SimError>;

#[test]
fn generic_controlled_paulis_match_all_named_axis_pairs() {
    let cases: [(Pauli, Pauli, NamedGate); 9] = [
        (Pauli::X, Pauli::X, TableauSimulator::xcx),
        (Pauli::X, Pauli::Y, TableauSimulator::xcy),
        (Pauli::X, Pauli::Z, TableauSimulator::xcz),
        (Pauli::Y, Pauli::X, TableauSimulator::ycx),
        (Pauli::Y, Pauli::Y, TableauSimulator::ycy),
        (Pauli::Y, Pauli::Z, TableauSimulator::ycz),
        (Pauli::Z, Pauli::X, TableauSimulator::zcx),
        (Pauli::Z, Pauli::Y, TableauSimulator::zcy),
        (Pauli::Z, Pauli::Z, TableauSimulator::zcz),
    ];

    for (control, target, named_gate) in cases {
        let mut generic = Sim::with_seed(2, 0);
        generic.0.h(0);
        generic.0.s(0);
        generic.0.h(1);
        generic.0.sqrt_x(1);
        let mut named = generic.clone();

        generic
            .0
            .controlled_pauli(&single(2, 0, control), &single(2, 1, target))
            .expect("axes on distinct qubits commute");
        named_gate(&mut named.0, 0, 1).expect("qubits are distinct");

        assert_same_state(&generic, &named, &format!("{control:?}C{target:?}"));
    }
}

// ---------------------------------------------------------------------------
// Batches
// ---------------------------------------------------------------------------
#[test]
fn batch_matches_the_equivalent_procedural_run() {
    let program = [
        Instruction::Gate1 { gate: Gate1Q::H, qubit: 0 },
        Instruction::T { basis: PauliBasis::Z, qubit: 0, adjoint: false },
        Instruction::Gate2 {
            control: PauliBasis::Z,
            target: PauliBasis::X,
            control_qubit: 0,
            target_qubit: 1,
        },
        Instruction::Gate1 { gate: Gate1Q::Cxyz, qubit: 2 },
        Instruction::Measure(single(3, 1, Pauli::Z)),
        Instruction::Pauli { basis: PauliBasis::X, qubit: 2 },
        Instruction::Reset { basis: PauliBasis::X, qubit: 2 },
        Instruction::Measure(single(3, 2, Pauli::Z)),
    ];

    let mut batched = Sim::with_seed(3, 99);
    let outcome = batched.apply_batch(&program).expect("valid program");

    let mut manual = Sim::with_seed(3, 99);
    manual.0.h(0);
    manual.t(0).expect("under the cap");
    manual.0.cx(0, 1).expect("distinct operands");
    manual.0.gate1(Gate1Q::Cxyz, 2);
    let first = manual.measure(1).expect("within the rank cap");
    manual.0.x(2);
    manual
        .0
        .reset_x(&Doubles, 2)
        .expect("reset is a measure plus a frame Z");
    let second = manual.measure(2).expect("within the rank cap");

    assert_eq!(outcome.records, vec![first, second]);
    assert_eq!(
        outcome.max_rank, 2,
        "the T doubles the rank and nothing collapses it"
    );
    assert_same_state(&batched, &manual, "batch vs procedural");
}

#[test]
fn conditional_pauli_reads_its_own_batch() {
    let program = [
        Instruction::Gate1 { gate: Gate1Q::H, qubit: 0 },
        Instruction::Measure(single(1, 0, Pauli::Z)),
        Instruction::ConditionalPauli { basis: PauliBasis::X, qubit: 0, control: 0 },
    ];
    for seed in 0..8 {
        let mut sim = Sim::with_seed(1, seed);
        sim.apply_batch(&program).expect("valid program");
        let z = sim.peek_z(0).expect("qubit 0 is live");
        assert!((z - 1.0).abs() < 1e-9, "seed {seed}: correction left |1⟩");
    }
}

#[test]
fn conditional_pauli_rejects_an_unreached_record() {
    let program = [Instruction::ConditionalPauli {
        basis: PauliBasis::X,
        qubit: 0,
        control: 0,
    }];
    let mut sim = Sim::with_seed(1, 0);
    assert_eq!(
        sim.apply_batch(&program),
        Err(SimError::MissingBatchRecord { index: 0 })
    );
}

#[test]
fn empty_batch_reports_no_peak() {
    let mut sim = Sim::with_seed(2, 0);
    let outcome = sim.apply_batch(&[]).expect("empty program");
    assert_eq!(outcome.max_rank, 0);
    assert!(outcome.records.is_empty());
}

#[test]
fn max_rank_reports_the_peak_not_the_final_rank() {
    let program = [
        Instruction::Gate1 { gate: Gate1Q::H, qubit: 0 },
        Instruction::T { basis: PauliBasis::Z, qubit: 0, adjoint: false },
        Instruction::Reset { basis: PauliBasis::Z, qubit: 0 },
    ];
    let mut sim = Sim::with_seed(1, 5);
    let outcome = sim.apply_batch(&program).expect("valid program");
    assert_eq!(outcome.max_rank, 2);
    assert_eq!(sim.rank(), 1);
}

#[test]
fn a_failed_instruction_aborts_the_batch_in_place() {
    let program = [
        Instruction::Gate1 { gate: Gate1Q::H, qubit: 0 },
        Instruction::Gate2 {
            control: PauliBasis::Z,
            target: PauliBasis::X,
            control_qubit: 0,
            target_qubit: 0,
        },
        Instruction::Gate1 { gate: Gate1Q::X, qubit: 0 },
    ];
    let mut sim = Sim::with_seed(1, 0);
    assert_eq!(
        sim.apply_batch(&program),
        Err(SimError::RepeatedQubit(0)),
        "the batch must surface the operand error"
    );

    let mut prefix = Sim::with_seed(1, 0);
    prefix.0.h(0);
    assert_same_state(&sim, &prefix, "aborted batch keeps its prefix");
}

#[test]
fn noise_instructions_refuse_what_is_no_probability() {
    let mut sim = Sim::with_seed(1, 0);
    let bad = 1.5f64.to_bits();
    assert_eq!(
        sim.apply_batch(&[Instruction::Record { value: true, flip_probability: bad }]),
        Err(SimError::InvalidProbability(bad))
    );
    assert_eq!(
        sim.apply_batch(&[Instruction::MeasureWithReadoutError {
            observable: single(1, 0, Pauli::Z),
            probability: bad,
        }]),
        Err(SimError::InvalidProbability(bad))
    );
    assert_eq!(
        sim.apply_batch(&[Instruction::RandomPauli {
            probabilities: vec![],
            alternatives: vec![single(1, 0, Pauli::X)],
            heralded: false,
        }]),
        Err(SimError::InvalidProbabilityDistribution)
    );
    assert_eq!(
        sim.apply_batch(&[Instruction::PauliRotation {
            axis: single(1, 0, Pauli::X),
            kernel_angle: f64::NAN.to_bits(),
        }]),
        Err(SimError::InvalidRotationAngle(f64::NAN.to_bits()))
    );
    assert_eq!(sim.rank(), 1);
    assert!((sim.peek_z(0).expect("live") - 1.0).abs() < TOL);
}

fn blank(kind: CircuitInstructionKind) -> CircuitInstruction {
    CircuitInstruction {
        kind,
        qubits: vec![],
        pauli_products: vec![],
        measurement_targets: vec![],
        feedback_targets: vec![],
        probability: 0,
        probabilities: vec![],
        kernel_angle: 0,
    }
}

fn on(kind: CircuitInstructionKind, qubits: &[usize]) -> CircuitInstruction {
    CircuitInstruction { qubits: qubits.to_vec(), ..blank(kind) }
}

fn noisy(kind: CircuitInstructionKind, qubits: &[usize], p: f64) -> CircuitInstruction {
    CircuitInstruction { probability: p.to_bits(), ..on(kind, qubits) }
}

fn channel(kind: CircuitInstructionKind, qubits: &[usize], ps: &[f64]) -> CircuitInstruction {
    CircuitInstruction {
        probabilities: ps.iter().map(|p| p.to_bits()).collect(),
        ..on(kind, qubits)
    }
}

fn reads(kind: CircuitInstructionKind, qubit: usize, p: f64) -> CircuitInstruction {
    CircuitInstruction {
        measurement_targets: vec![MeasurementTarget { qubit, inverted: false }],
        probability: p.to_bits(),
        ..blank(kind)
    }
}

fn product(kind: CircuitInstructionKind, letters: &[(usize, Pauli)], p: f64) -> CircuitInstruction {
    let mut pauli = PauliString::new(11);
    for &(q, letter) in letters {
        pauli.set(q, letter);
    }
    CircuitInstruction {
        pauli_products: vec![CircuitPauliProduct { pauli, inverted: false }],
        probability: p.to_bits(),
        probabilities: vec![p.to_bits()],
        ..blank(kind)
    }
}

#[test]
fn apply_circuit_runs_rotations_noise_records_and_expectations() {
    let mut rotation = product(CircuitInstructionKind::PauliRotation, &[(0, Pauli::Z)], 0.0);
    // `R_Z(0.2)` turns by `0.2 * pi / 2` about the Pauli.
    rotation.kernel_angle = (0.2 * PI / 2.0).to_bits();
    let feedback = CircuitInstruction {
        feedback_targets: vec![FeedbackTarget { record: 2, qubit: 1 }],
        ..blank(CircuitInstructionKind::FeedbackX)
    };
    let circuit = Circuit {
        nqubits: 11,
        instructions: vec![
            on(CircuitInstructionKind::H, &[0]),
            rotation,
            product(CircuitInstructionKind::ExpVal, &[(0, Pauli::X)], 0.0),
            reads(CircuitInstructionKind::MZ, 0, 1.0),
            reads(CircuitInstructionKind::MPad, 1, 0.0),
            feedback,
            reads(CircuitInstructionKind::MZ, 1, 0.0),
            noisy(CircuitInstructionKind::XError, &[2], 1.0),
            reads(CircuitInstructionKind::MZ, 2, 0.0),
            channel(CircuitInstructionKind::PauliChannel1, &[3], &[1.0, 0.0, 0.0]),
            reads(CircuitInstructionKind::MZ, 3, 0.0),
            channel(CircuitInstructionKind::HeraldedPauliChannel1, &[4], &[0.0, 1.0, 0.0, 0.0]),
            reads(CircuitInstructionKind::MZ, 4, 0.0),
            noisy(CircuitInstructionKind::HeraldedErase, &[5], 0.0),
            product(CircuitInstructionKind::PauliProductChannel, &[(6, Pauli::X)], 1.0),
            reads(CircuitInstructionKind::MZ, 6, 0.0),
            reads(CircuitInstructionKind::Mrz, 7, 1.0),
            reads(CircuitInstructionKind::MZ, 7, 0.0),
            noisy(CircuitInstructionKind::Depolarize3, &[8, 9, 10], 0.0),
            product(
                CircuitInstructionKind::Mpp,
                &[(8, Pauli::Z), (9, Pauli::Z), (10, Pauli::Z)],
                0.0,
            ),
        ],
    };
    let mut sim = Sim::with_seed(0, 9);
    let outcome = sim
        .0
        .apply_circuit(&Doubles, &circuit)
        .expect("full circuit executes");

    let x = f64::from_bits(outcome.expectation_values[0]);
    assert!((x - (0.2 * PI).cos()).abs() < 1e-9);
    let records: Vec<bool> = outcome.records.iter().map(|record| record.outcome).collect();
    assert_eq!(
        &records[1..],
        &[true, true, true, true, true, true, false, true, true, false, false]
    );
    assert_eq!(sim.num_qubits(), 11);
}

type Reference = fn(&mut CliffordUnitary);

fn swap_pair(f: &mut CliffordUnitary) {
    f.left_mul_swap(0, 1);
}

fn root_zz(f: &mut CliffordUnitary, adjoint: bool) {
    f.left_mul_cx(0, 1);
    if adjoint {
        f.left_mul_root_z_inverse(1);
    } else {
        f.left_mul_root_z(1);
    }
    f.left_mul_cx(0, 1);
}

fn root_about(f: &mut CliffordUnitary, basis: PauliBasis, adjoint: bool) {
    for q in 0..2 {
        match basis {
            PauliBasis::X => f.left_mul_hadamard(q),
            PauliBasis::Y => f.left_mul_root_x(q),
            PauliBasis::Z => {}
        }
    }
    root_zz(f, adjoint);
    for q in 0..2 {
        match basis {
            PauliBasis::X => f.left_mul_hadamard(q),
            PauliBasis::Y => f.left_mul_root_x_inverse(q),
            PauliBasis::Z => {}
        }
    }
}

fn controlled(f: &mut CliffordUnitary, control: PauliBasis, target: PauliBasis) {
    let letter = |basis: PauliBasis, q: usize| match basis {
        PauliBasis::X => <DensePauli as PaulimerPauli>::x(q, 2),
        PauliBasis::Y => <DensePauli as PaulimerPauli>::y(q, 2),
        PauliBasis::Z => <DensePauli as PaulimerPauli>::z(q, 2),
    };
    f.left_mul_controlled_pauli(&letter(control, 0), &letter(target, 1));
}

#[test]
fn apply_circuit_two_qubit_cliffords_match_the_sampler_frame() {
    let cases: [(CircuitInstructionKind, Reference); 21] = [
        (CircuitInstructionKind::CX, |f| f.left_mul_cx(0, 1)),
        (CircuitInstructionKind::CY, |f| controlled(f, PauliBasis::Z, PauliBasis::Y)),
        (CircuitInstructionKind::CZ, |f| f.left_mul_cz(0, 1)),
        (CircuitInstructionKind::Swap, swap_pair),
        (CircuitInstructionKind::CxSwap, |f| {
            f.left_mul_cx(0, 1);
            swap_pair(f);
        }),
        (CircuitInstructionKind::CzSwap, |f| {
            f.left_mul_cz(0, 1);
            swap_pair(f);
        }),
        (CircuitInstructionKind::ISwap, |f| {
            f.left_mul_cz(0, 1);
            f.left_mul_root_z(0);
            f.left_mul_root_z(1);
            swap_pair(f);
        }),
        (CircuitInstructionKind::ISwapDag, |f| {
            f.left_mul_cz(0, 1);
            f.left_mul_root_z_inverse(0);
            f.left_mul_root_z_inverse(1);
            swap_pair(f);
        }),
        (CircuitInstructionKind::SqrtXx, |f| root_about(f, PauliBasis::X, false)),
        (CircuitInstructionKind::SqrtXxDag, |f| root_about(f, PauliBasis::X, true)),
        (CircuitInstructionKind::SqrtYy, |f| root_about(f, PauliBasis::Y, false)),
        (CircuitInstructionKind::SqrtYyDag, |f| root_about(f, PauliBasis::Y, true)),
        (CircuitInstructionKind::SqrtZz, |f| root_about(f, PauliBasis::Z, false)),
        (CircuitInstructionKind::SqrtZzDag, |f| root_about(f, PauliBasis::Z, true)),
        (CircuitInstructionKind::SwapCx, |f| {
            swap_pair(f);
            f.left_mul_cx(0, 1);
        }),
        (CircuitInstructionKind::Xcx, |f| controlled(f, PauliBasis::X, PauliBasis::X)),
        (CircuitInstructionKind::Xcy, |f| controlled(f, PauliBasis::X, PauliBasis::Y)),
        (CircuitInstructionKind::Xcz, |f| controlled(f, PauliBasis::X, PauliBasis::Z)),
        (CircuitInstructionKind::Ycx, |f| controlled(f, PauliBasis::Y, PauliBasis::X)),
        (CircuitInstructionKind::Ycy, |f| controlled(f, PauliBasis::Y, PauliBasis::Y)),
        (CircuitInstructionKind::Ycz, |f| controlled(f, PauliBasis::Y, PauliBasis::Z)),
    ];

    for (kind, reference) in cases {
        let mut sim = Sim::with_seed(2, 0);
        let circuit = Circuit { nqubits: 2, instructions: vec![on(kind, &[0, 1])] };
        sim.0
            .apply_circuit(&Doubles, &circuit)
            .expect("Clifford circuit executes");
        let mut expected = CliffordUnitary::identity(2);
        reference(&mut expected);
        for qubit in 0..2 {
            for (row, want) in [
                (sim.0.core.r.preimage_x(qubit), expected.preimage_x(qubit)),
                (sim.0.core.r.preimage_z(qubit), expected.preimage_z(qubit)),
            ] {
                let what = format!("{kind:?} preimage of qubit {qubit}");
                assert_eq!(row.phase, want.xz_phase_exponent(), "{what}");
                assert_bits(&row, &want, 0, &what);
                assert_bits(&row, &want, 1, &what);
            }
        }
    }
}

// ---------------------------------------------------------------------------
// States
// ---------------------------------------------------------------------------
#[test]
fn measurement_can_drive_external_control_flow() {
    let mut sim = Sim::with_seed(2, 7);
    sim.0.h(0);
    sim.0.cx(0, 1).expect("distinct qubits");

    if sim.measure(0).expect("measurement succeeds").outcome {
        sim.0.x(1);
    }

    let second = sim.measure(1).expect("measurement succeeds");
    assert!(!second.outcome);
    assert!(second.deterministic);
}

#[test]
fn pauli_rotation_and_expectation_use_existing_pauli_strings() {
    let mut sim = Sim::with_seed(1, 0);
    sim.0.h(0);
    sim.t_pauli(&single(1, 0, Pauli::Z), false).expect("rotation succeeds");
    let x = sim.peek(&single(1, 0, Pauli::X)).expect("observable is in range");
    assert!((x - FRAC_1_SQRT_2).abs() < TOL);
}

#[test]
fn reads_past_the_register_are_refused() {
    let sim = Sim::with_seed(2, 0);
    let refused = SimError::QubitIndexOutOfRange { index: 4, num_qubits: 2 };
    assert_eq!(sim.peek_x(4), Err(SimError::QubitIndexOutOfRange { index: 4, num_qubits: 2 }));
    assert_eq!(sim.peek(&single(5, 4, Pauli::Z)), Err(refused));
    let mut imaginary = single(2, 0, Pauli::X);
    imaginary.phase_shift(1);
    assert_eq!(sim.peek(&imaginary), Err(SimError::NonHermitianPauli));
}

#[test]
fn gates_grow_the_shared_tableau_engine() {
    let mut sim = Sim::with_seed(1, 0);
    sim.0.h(65);
    assert_eq!(sim.num_qubits(), 66);
    assert_eq!(sim.0.core.r.n, 66);
    assert!((sim.peek_x(65).expect("qubit exists") - 1.0).abs() < TOL);
}

#[test]
fn state_vector_matches_hadamard_and_t() {
    let mut sim = Sim::with_seed(1, 0);
    sim.0.h(0);
    sim.t(0).expect("rotation succeeds");
    let phase = Complex64::new(FRAC_1_SQRT_2, FRAC_1_SQRT_2);
    assert_same_vector(
        &sim.state_vector(),
        &[Complex64::new(FRAC_1_SQRT_2, 0.0), FRAC_1_SQRT_2 * phase],
        "T|+>",
    );
}

#[test]
fn ccz_flips_only_the_all_one_amplitude() {
    let mut sim = Sim::with_seed(3, 0);
    for q in 0..3 {
        sim.0.h(q);
    }
    sim.0.ccz(&Doubles, 0, 1, 2).expect("distinct qubits");

    let mut expected = vec![Complex64::new(FRAC_1_SQRT_2.powi(3), 0.0); 8];
    expected[7] = -expected[7];
    assert_same_vector(&sim.state_vector(), &expected, "CCZ|+++>");
}

#[test]
fn a_refused_ccz_changes_nothing() {
    let mut sim = Sim::with_seed(2, 0);
    for (a, b, c, q) in [(1usize, 1usize, 0usize, 1usize), (1, 0, 1, 1), (0, 1, 1, 1)] {
        assert_eq!(sim.0.ccz(&Doubles, a, b, c), Err(SimError::RepeatedQubit(q)));
    }
    assert_eq!(sim.num_qubits(), 2);

    for q in 0..3 {
        sim.0.h(q);
    }
    sim.0.set_rank_cap(4);
    let before = sim.state_vector();
    let error = sim.0.ccz(&Doubles, 0, 1, 2).expect_err("the rank passes the cap");
    assert!(matches!(error, SimError::RankOverflow { rank: 8, cap: 4 }), "{error:?}");
    assert_eq!(sim.rank(), 1);
    assert_eq!(sim.state_vector(), before);
}

#[test]
fn signed_observables_work_and_non_hermitian_inputs_do_not_grow() {
    let mut sim = Sim::with_seed(1, 0);
    let mut negative = single(1, 0, Pauli::Z);
    negative.phase_shift(2);
    let measured = sim.measure_observable(&negative).expect("negative Z is Hermitian");
    assert!(measured.outcome && measured.deterministic);

    let mut invalid = single(5, 4, Pauli::X);
    invalid.phase_shift(1);
    assert_eq!(sim.measure_observable(&invalid), Err(SimError::NonHermitianPauli));
    assert_eq!(sim.t_pauli(&invalid, false), Err(SimError::NonHermitianPauli));
    assert_eq!(sim.num_qubits(), 1);
}

#[test]
fn an_impossible_outcome_cannot_be_selected() {
    let mut sim = Sim::with_seed(1, 0);
    let error = sim.postselect_z(0, true).expect_err("|0> never measures 1");
    assert_eq!(
        error,
        SimError::PostselectImpossible { outcome: true, probability: 0.0f64.to_bits() }
    );
    assert!((sim.peek_z(0).expect("live") - 1.0).abs() < TOL);
}

#[test]
fn postselection_recompresses_to_the_selected_state() {
    for outcome in [false, true] {
        let mut sim = Sim::with_seed(1, 0);
        sim.0.h(0);
        sim.postselect_z(0, outcome)
            .expect("both Hadamard branches are reachable");
        let expected = if outcome {
            [Complex64::new(0.0, 0.0), Complex64::new(1.0, 0.0)]
        } else {
            [Complex64::new(1.0, 0.0), Complex64::new(0.0, 0.0)]
        };
        assert_same_vector(&sim.state_vector(), &expected, "selected state");
    }
}

#[test]
fn reseeding_repeats_the_outcomes() {
    let mut sim = Sim::with_seed(8, 3);
    let snapshot = sim.clone();
    let mut run = |sim: &mut Sim| -> Vec<bool> {
        (0..8)
            .map(|q| {
                sim.0.h(q);
                sim.measure(q).expect("within the cap").outcome
            })
            .collect()
    };
    let first = run(&mut sim);
    let mut again = snapshot.clone();
    again.0.reseed_rng(3);
    assert_eq!(run(&mut again), first);
    let mut restored = snapshot.clone();
    restored.0.reseed_rng(77);
    restored.0.restore_rng_from(&snapshot.0);
    assert_eq!(run(&mut restored), first);
}

// ---------------------------------------------------------------------------
// Rank
// ---------------------------------------------------------------------------
#[test]
fn diagonal_t_does_not_grow_rank() {
    let mut sim = Sim::with_seed(1, 0);
    assert_eq!(sim.rank(), 1);
    sim.t(0).unwrap();
    assert_eq!(sim.rank(), 1);
    sim.t(0).unwrap();
    assert_eq!(sim.rank(), 1);
}

#[test]
fn diagonal_t_leaves_a_multi_term_state_alone() {
    let mut sim = Sim::with_seed(2, 0);
    sim.0.h(0);
    sim.t(0).unwrap();
    let expectation_before = sim.peek_x(0).unwrap();

    sim.t(1).unwrap();
    assert_eq!(sim.rank(), 2, "a diagonal T must not disturb the label set");
    assert!((sim.peek_x(0).unwrap() - expectation_before).abs() < 1e-12);
    assert!((sim.peek_z(1).unwrap() - 1.0).abs() < 1e-12);
}

#[test]
fn ccz_agrees_between_the_direct_and_rollback_paths() {
    let build = || {
        let mut sim = Sim::with_seed(3, 0);
        for q in 0..3 {
            sim.0.h(q);
        }
        sim
    };
    let mut direct = build();
    direct.0.ccz(&Doubles, 0, 1, 2).unwrap();

    let mut rollback = build();
    rollback.0.set_prune_epsilon(1e-11f64.to_bits());
    rollback.0.ccz(&Doubles, 0, 1, 2).unwrap();

    assert_eq!(direct.rank(), rollback.rank());
    for (lhs, rhs) in direct.state_vector().iter().zip(rollback.state_vector()) {
        assert!((lhs - rhs).norm() < 1e-12, "{lhs} vs {rhs}");
    }
}

#[test]
fn off_diagonal_t_doubles_then_merges() {
    let mut sim = Sim::with_seed(1, 0);
    sim.0.h(0);
    sim.t(0).unwrap();
    assert_eq!(sim.rank(), 2, "off-diagonal T should double the rank");
    sim.t_dag(0).unwrap();
    assert_eq!(sim.rank(), 1, "T†T should collapse back to rank 1");
}

#[test]
fn generic_t_count_bounds_rank_by_two_to_the_t() {
    let n = 6;
    let mut sim = Sim::with_seed(n, 0);
    for i in 0..n {
        sim.0.h(i);
        sim.t(i).unwrap();
        assert_eq!(
            sim.rank(),
            1 << (i + 1),
            "rank should be 2^(t) after {} Ts",
            i + 1
        );
    }
}

#[test]
fn measurement_can_reduce_rank() {
    let mut sim = Sim::with_seed(1, 0);
    sim.0.h(0);
    sim.t(0).unwrap();
    assert_eq!(sim.rank(), 2);
    sim.postselect_z(0, false).unwrap();
    assert_eq!(sim.rank(), 1);
}

#[test]
fn rank_overflow_is_reported() {
    let mut sim = Sim::with_seed(8, 0);
    sim.0.set_rank_cap(4);
    sim.0.h(0);
    sim.t(0).unwrap();
    sim.0.h(1);
    sim.t(1).unwrap();
    sim.0.h(2);
    let err = sim.t(2).unwrap_err();
    assert!(matches!(err, SimError::RankOverflow { rank: 8, cap: 4 }));
}

#[test]
fn pruning_cannot_install_an_empty_state() {
    let mut sim = Sim::with_seed(1, 0);
    sim.0.set_prune_epsilon(0.9f64.to_bits());

    let error = sim
        .0
        .postselect_x(&Doubles, 0, false)
        .expect_err("random-basis projection coefficients are below the threshold");

    assert_eq!(error, SimError::EmptyStateAfterPruning { epsilon: 0.9f64.to_bits() });
    assert_eq!(sim.rank(), 1, "failed finalization must preserve the state");
}

#[test]
fn wide_registers_use_multiword_labels() {
    let mut sim = Sim::with_seed(70, 0);
    sim.0.h(65);
    sim.t(65).unwrap();
    assert_eq!(sim.rank(), 2);
    sim.postselect_z(65, false).unwrap();
    assert_eq!(sim.rank(), 1);
}

#[test]
fn heap_allocated_labels_survive_the_full_pipeline() {
    let n = 600;
    let mut sim = Sim::with_seed(n, 0);
    sim.0.h(575);
    sim.t(575).unwrap();
    assert_eq!(sim.rank(), 2);
    sim.0.h(577);
    sim.t(577).unwrap();
    assert_eq!(sim.rank(), 4);
    sim.postselect_z(575, false).unwrap();
    sim.postselect_z(577, false).unwrap();
    assert_eq!(sim.rank(), 1);
    assert!((sim.peek_z(575).unwrap() - 1.0).abs() < 1e-12);
}

#[test]
fn qubit_count_grows_on_demand_across_word_boundary() {
    let mut sim = Sim::with_seed(2, 0);
    assert_eq!(sim.num_qubits(), 2);
    sim.0.cx(0, 100).expect("distinct CNOT operands");
    assert!(sim.num_qubits() >= 101);
    assert_eq!(sim.rank(), 1, "a Clifford must not disturb the amplitude map");
    sim.0.h(100);
    sim.t(100).unwrap();
    assert_eq!(sim.rank(), 2);
}

#[test]
fn growth_across_every_label_width_boundary_preserves_the_state() {
    for (start, grown) in [(64usize, 65usize), (128, 129), (256, 257), (512, 513)] {
        let mut sim = Sim::with_seed(start, 0);
        for q in 0..2 {
            sim.0.h(q);
            sim.t(q).unwrap();
        }
        assert_eq!(sim.rank(), 4, "start n = {start}");
        let readouts = |sim: &Sim| {
            [
                sim.peek_x(0).unwrap(),
                sim.peek_y(0).unwrap(),
                sim.peek_x(1).unwrap(),
                sim.peek_z(1).unwrap(),
            ]
        };
        let before = readouts(&sim);

        sim.0.h(grown - 1);
        assert_eq!(sim.num_qubits(), grown, "grown n = {grown}");
        assert_eq!(sim.rank(), 4, "growth must not disturb the map");
        let after = readouts(&sim);
        for (b, a) in before.iter().zip(&after) {
            assert!(
                (b - a).abs() < 1e-12,
                "readout moved across the {start} → {grown} boundary: {b} vs {a}"
            );
        }

        for q in 0..2 {
            sim.postselect_z(q, false).unwrap();
        }
        assert_eq!(sim.rank(), 1, "grown n = {grown}");
        assert!((sim.peek_z(0).unwrap() - 1.0).abs() < 1e-12);
    }
}

#[test]
fn a_wide_observable_grows_the_register() {
    let mut sim = Sim::with_seed(1, 0);
    let wide = single(5, 4, Pauli::Z);
    sim.measure_observable(&wide).unwrap();
    assert_eq!(sim.num_qubits(), 5);

    let mut sim = Sim::with_seed(1, 0);
    sim.t_pauli(&wide, false).unwrap();
    assert_eq!(sim.num_qubits(), 5);
}

// ---------------------------------------------------------------------------
// Measurements against dense linear algebra
// ---------------------------------------------------------------------------
const I: Complex64 = Complex64::new(0.0, 1.0);

fn apply_pauli(v: &[Complex64], p: &PauliString) -> Vec<Complex64> {
    let mut out = v.to_vec();
    for site in 0..p.nqubits {
        let pauli = p.get(site);
        if pauli == Pauli::I {
            continue;
        }
        let bit = 1usize << site;
        let mut next = vec![Complex64::new(0.0, 0.0); out.len()];
        for (y, &value) in out.iter().enumerate() {
            let set = y & bit != 0;
            let (target, factor) = match pauli {
                Pauli::X => (y ^ bit, Complex64::new(1.0, 0.0)),
                Pauli::Z => (y, Complex64::new(if set { -1.0 } else { 1.0 }, 0.0)),
                Pauli::Y => (y ^ bit, if set { -I } else { I }),
                Pauli::I => unreachable!("skipped above"),
            };
            next[target] += factor * value;
        }
        out = next;
    }
    out
}

fn project(v: &[Complex64], p: &PauliString, outcome: bool) -> Option<Vec<Complex64>> {
    let applied = apply_pauli(v, p);
    let mut out: Vec<Complex64> = v
        .iter()
        .zip(applied)
        .map(|(&x, y)| 0.5 * (x + sign(outcome) * y))
        .collect();
    let norm_sqr: f64 = out.iter().map(Complex64::norm_sqr).sum();
    if norm_sqr < 1e-12 {
        return None;
    }
    let scale = norm_sqr.sqrt().recip();
    for value in &mut out {
        *value *= scale;
    }
    Some(out)
}

fn random_state(n: usize, seed: u64, cliffords: usize, magic: usize) -> Sim {
    let mut rng = SmallRng::seed_from_u64(seed);
    let mut sim = Sim::with_seed(n, seed);
    for _ in 0..magic {
        let q = rng.random_range(0..n);
        sim.0.h(q);
        sim.t(q).expect("a handful of T gates stays under the cap");
    }
    let choices = if n >= 2 { 5 } else { 3 };
    for _ in 0..cliffords {
        let q = rng.random_range(0..n);
        match rng.random_range(0..choices) {
            0 => sim.0.h(q),
            1 => sim.0.s(q),
            2 => sim.0.sqrt_x(q),
            3 => {
                let other = (q + 1 + rng.random_range(0..n - 1)) % n;
                sim.0.cx(q, other).expect("operands are distinct");
            }
            _ => {
                let other = (q + 1 + rng.random_range(0..n - 1)) % n;
                sim.0.cz(q, other).expect("operands are distinct");
            }
        }
    }
    sim
}

fn random_pauli(rng: &mut SmallRng, n: usize, max_weight: usize) -> PauliString {
    let weight = rng.random_range(1..=max_weight.min(n));
    let mut paulis = PauliString::new(n);
    let mut placed = 0;
    while placed < weight {
        let site = rng.random_range(0..n);
        if paulis.get(site) != Pauli::I {
            continue;
        }
        paulis.set(
            site,
            match rng.random_range(0..3) {
                0 => Pauli::X,
                1 => Pauli::Y,
                _ => Pauli::Z,
            },
        );
        placed += 1;
    }
    paulis
}

#[test]
fn measurement_matches_the_dense_projection() {
    for n in [1usize, 2, 3, 4] {
        for seed in 0..12u64 {
            let base = random_state(n, 0x51D0 + seed, 12, n.min(2));
            let mut rng = SmallRng::seed_from_u64(0xBEEF + seed);
            let before = base.state_vector();
            for trial in 0..4 {
                let observable = random_pauli(&mut rng, n, n);
                for outcome in [false, true] {
                    let Some(want) = project(&before, &observable, outcome) else {
                        continue;
                    };
                    let mut sim = base.clone();
                    sim.postselect_observable(&observable, outcome)
                        .expect("an outcome with weight is post-selectable");
                    assert_same_vector(
                        &sim.state_vector(),
                        &want,
                        &format!("n={n} seed={seed} trial={trial} {observable:?} -> {outcome}"),
                    );
                }
            }
        }
    }
}

#[test]
fn chained_measurements_match_the_dense_projections() {
    for n in [2usize, 3, 4] {
        let mut rng = SmallRng::seed_from_u64(0xC4A1 + n as u64);
        let mut sim = random_state(n, 0xC4A1 + n as u64, 20, n.min(3));
        for step in 0..12 {
            let observable = random_pauli(&mut rng, n, n);
            let before = sim.state_vector();
            let outcome = rng.random_bool(0.5);
            let Some(want) = project(&before, &observable, outcome) else {
                continue;
            };
            sim.postselect_observable(&observable, outcome)
                .expect("an outcome with weight is post-selectable");
            assert_same_vector(
                &sim.state_vector(),
                &want,
                &format!("n={n} step={step} {observable:?} -> {outcome}"),
            );
        }
    }
}

#[test]
fn a_measured_observable_becomes_deterministic() {
    let n = 130;
    for outcome in [false, true] {
        let mut sim = Sim::with_seed(n, 5);
        sim.0.h(70);
        sim.t(70).expect("one T stays under the cap");
        sim.0.cx(70, 3).expect("operands are distinct");
        sim.0.h(3);

        let observable = single(n, 70, Pauli::Z);
        sim.postselect_observable(&observable, outcome)
            .expect("Z on a magic qubit has weight on both outcomes");

        let want = sign(outcome);
        let expectation = sim.peek_z(70).expect("qubit 70 is live");
        assert!(
            (expectation - want).abs() < 1e-12,
            "outcome={outcome}: <Z> = {expectation}, want {want}"
        );
        let repeat = sim.measure_observable(&observable).expect("within the cap");
        assert_eq!(repeat.outcome, outcome, "the repeat must agree");
        assert!(repeat.deterministic, "the repeat must be forced");
        assert!((f64::from_bits(repeat.probability) - 1.0).abs() < 1e-12);
    }
}

#[test]
fn basis_axis_paths_match_the_pauli_string_paths() {
    let n = 5;
    let seed = 0xAA55;
    let build = || random_state(n, seed, 15, 2);

    for q in 0..n {
        let mut fast = build();
        let mut slow = build();
        fast.t(q).expect("T stays under the cap");
        slow.t_pauli(&single(n, q, Pauli::Z), false).expect("T stays under the cap");
        assert_same_state(&fast, &slow, &format!("t({q})"));

        let mut fast = build();
        let mut slow = build();
        fast.t_dag(q).expect("T† stays under the cap");
        slow.t_pauli(&single(n, q, Pauli::Z), true).expect("T† stays under the cap");
        assert_same_state(&fast, &slow, &format!("t_dag({q})"));

        for axis in BASES {
            let mut fast = build();
            let mut slow = build();
            match axis {
                PauliBasis::Z => fast.0.reset_z(&Doubles, q),
                PauliBasis::X => fast.0.reset_x(&Doubles, q),
                PauliBasis::Y => fast.0.reset_y(&Doubles, q),
            }
            .expect("reset is a measurement plus a correction");
            if slow
                .measure_observable(&single(n, q, axis.to_pauli()))
                .expect("within the rank cap")
                .outcome
            {
                match axis {
                    PauliBasis::Z => slow.0.x(q),
                    _ => slow.0.z(q),
                }
            }
            assert_same_state(&fast, &slow, &format!("reset_{axis:?}({q})"));
        }
    }
}

#[test]
fn the_compression_preserves_the_state_norm() {
    let n = 3;
    let mut rng = SmallRng::seed_from_u64(0x2E57);
    for seed in 0..8u64 {
        let mut sim = random_state(n, 0x2E57 + seed, 10, 2);
        for _ in 0..6 {
            let observable = random_pauli(&mut rng, n, n);
            sim.measure_observable(&observable).expect("within the rank cap");
            let norm_sqr: f64 = sim.state_vector().iter().map(Complex64::norm_sqr).sum();
            assert!((norm_sqr - 1.0).abs() < 1e-9, "state norm drifted to {norm_sqr}");
        }
    }
}

#[test]
fn a_single_qubit_random_measurement_lands_on_the_basis_state() {
    for outcome in [false, true] {
        let mut sim = Sim::with_seed(1, 0);
        sim.0.h(0);
        let result = sim.postselect_z(0, outcome).expect("Z on |+> is an even coin");
        assert!((f64::from_bits(result.probability) - 0.5).abs() < 1e-12);

        let want = if outcome {
            [Complex64::new(0.0, 0.0), Complex64::new(1.0, 0.0)]
        } else {
            [Complex64::new(1.0, 0.0), Complex64::new(0.0, 0.0)]
        };
        assert_same_vector(&sim.state_vector(), &want, &format!("Z|+> -> {outcome}"));
        let x_expectation = sim.peek_x(0).expect("qubit 0 is live");
        assert!(x_expectation.abs() < 1e-12, "<X> = {x_expectation}");
    }
}

#[test]
fn sampled_outcomes_follow_the_born_rule() {
    let n = 2;
    let base = {
        let mut sim = Sim::with_seed(n, 11);
        sim.0.h(0);
        sim.t(0).expect("one T stays under the cap");
        sim.0.h(0);
        sim
    };
    let expectation = base.peek_z(0).expect("qubit 0 is live");
    assert!((expectation - FRAC_1_SQRT_2).abs() < 1e-12, "{expectation}");

    let shots: u32 = 20_000;
    let mut minus = 0u32;
    for seed in 0..shots {
        let mut sim = base.clone();
        sim.0.reseed_rng(u64::from(seed));
        if sim.measure(0).expect("within the rank cap").outcome {
            minus += 1;
        }
    }
    let observed = f64::from(minus) / f64::from(shots);
    let expected = (1.0 - FRAC_1_SQRT_2) / 2.0;
    assert!(
        (observed - expected).abs() < 0.01,
        "sampled {observed}, expected {expected}"
    );
}

#[test]
fn measurements_in_a_row_come_out_alike() {
    for seed in 0..24u64 {
        let n = 4;
        let mut sim = random_state(n, 0x77A0 + seed, 12, 2);
        let mut rng = SmallRng::seed_from_u64(0xCAFE + seed);
        let observable = random_pauli(&mut rng, n, n);
        let first = sim.measure_observable(&observable).expect("within the cap");
        let second = sim.measure_observable(&observable).expect("within the cap");
        let third = sim.measure_observable(&observable).expect("within the cap");
        assert_eq!(second.outcome, first.outcome, "{observable:?}");
        assert_eq!(third.outcome, second.outcome, "{observable:?}");
        assert!(second.deterministic && third.deterministic);

        let q = rng.random_range(0..n);
        let once = sim.measure(q).expect("within the cap");
        assert_eq!(sim.measure(q).expect("within the cap").outcome, once.outcome);
        assert!(sim.postselect_z(q, !once.outcome).is_err(), "the other outcome is gone");
    }
}
