//! Batch execution, postselection and prepared sampling over double-precision
//! amplitudes.
use std::f64::consts::{FRAC_1_SQRT_2, PI};

use num_complex::Complex64;
use ticit::amplitudes::{projection_joints, rotation_mixes, Joint, Mix};
use ticit::chunks::ChunkNoise;
use ticit::compaction::compress_bits;
use ticit::driver::{
    execute_batch_in_place_expressions, sample_measurements_and_expectations_batch,
    sample_measurements_batch,
};
use ticit::errors::TicitError;
use ticit::executor::{
    active_length, default_batch_count, reset_batch_executor, BatchFactoredExecutorState,
};
use ticit::exogenous::{
    exogenous_assigned_words, presample_exogenous_packed, prepare_presampled_exogenous_packed,
    resample_prepared_exogenous_packed_in_place, skip_positions, BiasedCoins, BiasedDraw,
    ExogenousDraws, PackedPresampledExogenous, RareDraw, SkipDraw,
};
use ticit::kernels::ActiveKernels;
use ticit::outputs::{append_bit_rows, SampleCounts};
use ticit::postselect::{
    execute_batch_postselected_in_place, BatchDetectorPostselectionOptions,
    BatchDetectorPostselectionResult, BatchDetectorPostselectionScratch,
};
use ticit::presampled_expression::{
    evaluate_presampled_expression_block, prepare_block_expression_parent_deltas,
    prepare_presampled_expression_plan, PresampledExpression, PresampledExpressionBlock,
    PresampledExpressionPlan,
};
use ticit::program::{
    ActiveComponentMeasurement, ActiveComponentPlan, ActiveComponentPromotion, ActiveComponentStep,
    ActiveComponentStepKind, ApplyPrecomputedActivePauliRotation, BernoulliSampleGroup,
    FactoredInstruction, FactoredInstructionProgram, IntroduceDormantMeasurementBranch,
    MeasurePrecomputedActivePauli, MeasurementKernel, PauliAction, PromoteDormantRotation,
    RareCategoricalSampleGroup, RecordDetector, RecordMeasurement, RotationKernel,
};
use ticit::reference::reference_sample_for_program;
use ticit::runs::shot_major_promotion_prefix_length;
use ticit::sampler::{
    active_worker_count, ceil_div_u64, checked_output_len, logical_records_by_observable,
    logical_records_for_observable, make_circuit_sampling_input, CircuitObservableInclude, Sampler,
    SamplerOptions,
    SamplingInput, BRANCH_SEED_BASE, EXOGENOUS_SEED_BASE,
};
use ticit::schedule::{sample_impl, SampleResult};
use ticit::symbolic::{
    symbolic_bool, SymbolicBool, SymbolicBoolEvaluationPlan, SymbolicCategoricalDistribution,
};
use ticit::survive::compact_surviving_shots;
use ticit::symbols::{
    assign_batch_symbol, batch_bit_at, batch_sign_mode, xor_symbolic_bool_batch_into, BatchSignMode,
};
use ticit::validate::{can_prepare, is_preparable};
use ticit::validate_draws::{draws_fit, noise_covers};

// ---------------------------------------------------------------------------
// Arithmetic
// ---------------------------------------------------------------------------
struct Doubles;

fn next_random_u64(state: &mut u64) -> u64 {
    *state = state.wrapping_add(0x9e37_79b9_7f4a_7c15);
    let mut z = *state;
    z = (z ^ (z >> 30)).wrapping_mul(0xbf58_476d_1ce4_e5b9);
    z = (z ^ (z >> 27)).wrapping_mul(0x94d0_49bb_1331_11eb);
    z ^ (z >> 31)
}

fn next_random_f64(state: &mut u64) -> f64 {
    (next_random_u64(state) >> 11) as f64 / (1u64 << 53) as f64
}

fn i_pow(quarter: u8) -> Complex64 {
    match quarter {
        0 => Complex64::new(1.0, 0.0),
        1 => Complex64::new(0.0, 1.0),
        2 => Complex64::new(-1.0, 0.0),
        _ => Complex64::new(0.0, -1.0),
    }
}

/// What a branch keeps of the lane, before normalization.
fn project(joints: &[Joint], lane: &[Complex64]) -> Vec<Complex64> {
    joints
        .iter()
        .map(|joint| match joint.mix {
            None => lane[joint.source],
            Some(mix) => {
                (lane[joint.source] + i_pow(mix.quarter) * lane[mix.other]) * FRAC_1_SQRT_2
            }
        })
        .collect()
}

fn minus_probability(minus: &[Joint], lane: &[Complex64]) -> f64 {
    project(minus, lane)
        .iter()
        .map(Complex64::norm_sqr)
        .sum::<f64>()
        .clamp(0.0, 1.0)
}

impl ActiveKernels<Complex64> for Doubles {
    fn zero(&self) -> Complex64 {
        Complex64::new(0.0, 0.0)
    }

    fn one(&self) -> Complex64 {
        Complex64::new(1.0, 0.0)
    }

    fn product(&self, left: Complex64, right: Complex64) -> Complex64 {
        left * right
    }

    fn rotate(
        &self,
        kernel_angle: u64,
        sign: bool,
        mixes: &Vec<Mix>,
        lane: Vec<Complex64>,
    ) -> Vec<Complex64> {
        let angle = f64::from_bits(kernel_angle);
        let weight = Complex64::new(0.0, if sign { angle.sin() } else { -angle.sin() });
        lane.iter()
            .zip(mixes)
            .map(|(amplitude, mix)| {
                angle.cos() * amplitude + weight * i_pow(mix.quarter) * lane[mix.other]
            })
            .collect()
    }

    fn promote(&self, kernel_angle: u64, sign: bool, lane: Vec<Complex64>) -> Vec<Complex64> {
        let angle = f64::from_bits(kernel_angle);
        let weight = Complex64::new(0.0, if sign { angle.sin() } else { -angle.sin() });
        let low: Vec<Complex64> = lane.iter().map(|a| angle.cos() * a).collect();
        let high: Vec<Complex64> = lane.iter().map(|a| weight * a).collect();
        low.into_iter().chain(high).collect()
    }

    fn measure(
        &self,
        plus: &Vec<Joint>,
        minus: &Vec<Joint>,
        lane: Vec<Complex64>,
        rng: u64,
    ) -> (u64, Option<(bool, Vec<Complex64>)>) {
        let mut state = rng;
        let p = minus_probability(minus, &lane);
        let branch = next_random_f64(&mut state) < p;
        let chance = if branch { p } else { 1.0 - p };
        if chance <= 0.0 {
            return (state, None);
        }
        let scale = chance.sqrt().recip();
        let kept = if branch { minus } else { plus };
        let projected = project(kept, &lane).iter().map(|a| a * scale).collect();
        (state, Some((branch, projected)))
    }

    fn expect(&self, minus: &Vec<Joint>, outcome: bool, lane: Vec<Complex64>) -> u64 {
        let e = 1.0 - 2.0 * minus_probability(minus, &lane);
        (if outcome { -e } else { e }).to_bits()
    }

    fn random(&self, rng: u64) -> (u64, u64) {
        let mut state = rng;
        let bits = next_random_u64(&mut state);
        (state, bits)
    }
}

// ---------------------------------------------------------------------------
// Programs
// ---------------------------------------------------------------------------
const EIGHTH: f64 = PI / 8.0;

fn plan_of(expr: &SymbolicBool) -> SymbolicBoolEvaluationPlan {
    SymbolicBoolEvaluationPlan::new(expr)
}

fn promote(angle: f64) -> FactoredInstruction {
    FactoredInstruction::PromoteDormantRotation(PromoteDormantRotation {
        sign_plan: plan_of(&SymbolicBool::from(false)),
        kernel_angle: angle.to_bits(),
    })
}

fn rotate(nqubits: usize, xmask: u64, zmask: u64, angle: f64) -> FactoredInstruction {
    FactoredInstruction::ApplyPrecomputedActivePauliRotation(ApplyPrecomputedActivePauliRotation {
        sign_plan: plan_of(&SymbolicBool::from(false)),
        rotation_kernel: RotationKernel {
            action: PauliAction { nqubits, xmask, zmask },
            is_diagonal: xmask == 0,
            uniform_imag_pairs: false,
            pair_bit: if xmask == 0 { 0 } else { xmask.trailing_zeros() },
            kernel_angle: angle.to_bits(),
        },
    })
}

fn kernel(nqubits: usize, xmask: u64, zmask: u64) -> MeasurementKernel {
    MeasurementKernel {
        action: PauliAction { nqubits, xmask, zmask },
        is_diagonal: xmask == 0,
    }
}

fn record(outcome: SymbolicBool, record: i32, condition: i32) -> FactoredInstruction {
    FactoredInstruction::RecordMeasurement(RecordMeasurement {
        outcome_plan: plan_of(&outcome),
        outcome,
        record: Some(record),
        record_condition: Some(condition),
        exp_val: None,
    })
}

fn measure(k: MeasurementKernel, branch: i32, record: i32, condition: i32) -> FactoredInstruction {
    let outcome = symbolic_bool(branch);
    FactoredInstruction::MeasurePrecomputedActivePauli(MeasurePrecomputedActivePauli {
        kernel: k,
        branch,
        outcome_plan: plan_of(&outcome),
        outcome,
        record: Some(record),
        record_condition: Some(condition),
        exp_val: None,
    })
}

fn fixed_probe(constant: bool, exp_val: i32) -> FactoredInstruction {
    let outcome = SymbolicBool::from(constant);
    FactoredInstruction::RecordMeasurement(RecordMeasurement {
        outcome_plan: plan_of(&outcome),
        outcome,
        record: None,
        record_condition: None,
        exp_val: Some(exp_val),
    })
}

fn dormant_probe(branch: i32, exp_val: i32) -> FactoredInstruction {
    let outcome = symbolic_bool(branch);
    FactoredInstruction::IntroduceDormantMeasurementBranch(IntroduceDormantMeasurementBranch {
        branch,
        outcome_plan: plan_of(&outcome),
        outcome,
        record: None,
        record_condition: None,
        exp_val: Some(exp_val),
    })
}

fn active_probe(k: MeasurementKernel, negated: bool, branch: i32, exp_val: i32) -> FactoredInstruction {
    let outcome = SymbolicBool::from(negated);
    FactoredInstruction::MeasurePrecomputedActivePauli(MeasurePrecomputedActivePauli {
        kernel: k,
        branch,
        outcome_plan: plan_of(&outcome),
        outcome,
        record: None,
        record_condition: None,
        exp_val: Some(exp_val),
    })
}

fn detector(id: i32, records: &[i32], outcome: SymbolicBool, postselect: bool) -> FactoredInstruction {
    FactoredInstruction::RecordDetector(RecordDetector {
        detector: id,
        records: records.to_vec(),
        outcome_plan: plan_of(&outcome),
        outcome,
        postselect,
    })
}

/// A program without noise.
fn program(
    n: usize,
    max_k: usize,
    nsymbols: usize,
    instructions: Vec<FactoredInstruction>,
) -> FactoredInstructionProgram {
    let mut nrecords = 0;
    let mut ndetectors = 0;
    let mut nexpvals = 0;
    for instruction in &instructions {
        nrecords = nrecords.max(instruction.record().unwrap_or(0) as usize);
        if let Some(e) = instruction.exp_val() {
            nexpvals = nexpvals.max(e as usize + 1);
        }
        if let FactoredInstruction::RecordDetector(d) = instruction {
            ndetectors = ndetectors.max(d.detector as usize);
        }
    }
    FactoredInstructionProgram {
        n,
        max_k,
        nsymbols,
        nrecords,
        ndetectors,
        nexpvals,
        instructions,
        ..FactoredInstructionProgram::default()
    }
}

/// The program with its first symbol flipped with probability `p`.
fn flipped(p: f64, program: FactoredInstructionProgram) -> FactoredInstructionProgram {
    FactoredInstructionProgram {
        sampled_bernoulli_conditions: vec![1],
        sampled_bernoulli_probabilities: vec![p.to_bits()],
        ..program
    }
}

/// The noise of a chunk.
fn draw(program: &FactoredInstructionProgram, shots: usize, seed: u64) -> ExogenousDraws {
    let mut state = seed;
    let bernoulli = program
        .sampled_bernoulli_probabilities
        .iter()
        .map(|&bits| {
            let p = f64::from_bits(bits);
            let mut words = vec![0u64; shots.div_ceil(64)];
            for shot in 0..shots {
                if next_random_f64(&mut state) < p {
                    words[shot / 64] |= 1 << (shot % 64);
                }
            }
            BiasedDraw { invert: false, coins: BiasedCoins::Fair(words) }
        })
        .collect();
    ExogenousDraws { categorical: vec![], rare: vec![], bernoulli, low: vec![] }
}

fn sample(program: &FactoredInstructionProgram, shots: usize, batches: usize, seed: u64) -> Vec<Vec<u64>> {
    let draws = draw(program, shots, seed ^ EXOGENOUS_SEED_BASE);
    assert!(draws_fit(program, &draws, shots));
    sample_measurements_batch(&Doubles, program, &draws, shots, batches, seed)
        .expect("sampling succeeds")
}

fn record_bit(row: &[u64], record: usize) -> bool {
    (row[record >> 6] >> (record & 63)) & 1 != 0
}

// ---------------------------------------------------------------------------
// Batches
// ---------------------------------------------------------------------------
#[test]
fn default_constants_match_the_cpp() {
    assert_eq!(default_batch_count(10).expect("k=10 valid"), 32);
    assert_eq!(default_batch_count(0).expect("k=0 valid"), 2048);
    assert_eq!(default_batch_count(15).expect("k=15 valid"), 1);
}

#[test]
fn an_active_state_past_the_machine_is_refused() {
    assert_eq!(active_length(10).expect("fits"), 1024);
    let error = default_batch_count(64).expect_err("2^64 amplitudes");
    assert_eq!(error.to_string(), "active state width is out of range");
}

/// The plan of `H 0`, `T 0` and `M 0`.
fn t_gate() -> FactoredInstructionProgram {
    program(1, 1, 2, vec![promote(EIGHTH), measure(kernel(1, 1, 0), 1, 1, 2)])
}

#[test]
fn batch_sampler_t_gate_window() {
    let records = sample(&t_gate(), 200, 32, 23);
    assert_eq!(records.len(), 200);
    let ones = records.iter().filter(|row| record_bit(row, 0)).count();
    assert!(
        ones > 50 && ones < 150,
        "ones {ones} outside the (50, 150) window"
    );
}

#[test]
fn batch_sampler_is_seed_deterministic() {
    // `X_ERROR(0.25) 0`, `H 1`, `T 1`, `H 1` and `M 0 1`.
    let noisy = flipped(
        0.25,
        program(
            2,
            1,
            4,
            vec![
                promote(EIGHTH),
                record(symbolic_bool(1), 1, 2),
                measure(kernel(1, 0, 1), 3, 2, 4),
            ],
        ),
    );
    let first = sample(&noisy, 300, 0, 99);
    let second = sample(&noisy, 300, 0, 99);
    assert_eq!(first, second);
    let other = sample(&noisy, 300, 0, 100);
    assert_ne!(first, other, "a different seed should move some record");
    let errors = first.iter().filter(|row| record_bit(row, 0)).count();
    assert!(errors > 40 && errors < 110, "{errors} errors");
    let ones = first.iter().filter(|row| record_bit(row, 1)).count();
    assert!(ones > 15 && ones < 80, "{ones} ones for sin^2(pi/8)");
}

#[test]
fn records_do_not_depend_on_the_block_size_where_nothing_is_drawn() {
    let noisy = flipped(0.5, program(1, 0, 2, vec![record(symbolic_bool(1), 1, 2)]));
    assert_eq!(sample(&noisy, 200, 7, 5), sample(&noisy, 200, 64, 5));
}

/// The plan of two expectation probes, `H 0`, `T 0`, three probes, `T_DAG 0`,
/// `H 0` and `M 0`.
fn probes() -> FactoredInstructionProgram {
    program(
        1,
        1,
        3,
        vec![
            fixed_probe(false, 0),
            dormant_probe(3, 1),
            promote(EIGHTH),
            active_probe(kernel(1, 0, 1), false, 3, 2),
            active_probe(kernel(1, 1, 1), true, 3, 3),
            active_probe(kernel(1, 1, 0), false, 3, 4),
            rotate(1, 1, 0, -EIGHTH),
            measure(kernel(1, 0, 1), 1, 1, 2),
        ],
    )
}

#[test]
fn batch_expectation_sampler_matches_exact_values() {
    let program = probes();
    let out = sample_measurements_and_expectations_batch(
        &Doubles,
        &program,
        &draw(&program, 5, 71),
        5,
        0,
        71,
    )
    .expect("sampling succeeds");
    let expected = [1.0, 0.0, FRAC_1_SQRT_2, FRAC_1_SQRT_2, 0.0];
    for (shot, expectations) in out.expectations.iter().enumerate() {
        assert_eq!(expectations.len(), 5);
        for (i, (&bits, &want)) in expectations.iter().zip(expected.iter()).enumerate() {
            let actual = f64::from_bits(bits);
            assert!(
                (actual - want).abs() <= 1e-12,
                "shot {shot} exp {i}: {actual} != {want}"
            );
        }
    }
    for row in &out.measurements {
        assert!(!record_bit(row, 0), "the probe must be non-destructive");
    }
}

#[test]
fn a_prepared_sampler_reports_the_same_expectations() {
    let input = SamplingInput {
        program: probes(),
        observable_records: vec![],
        observable: 0,
        observable_includes: 0,
    };
    let mut sampler =
        Sampler::from_input(&Doubles, input, SamplerOptions::default(), "portable").expect("builds");
    let result = sample_with_seed(&mut sampler, 5, 71, true, false);
    let expected = [1.0, 0.0, FRAC_1_SQRT_2, FRAC_1_SQRT_2, 0.0];
    let values = &result.tally.exp_vals;
    assert_eq!(values.len(), 25);
    for row in values.chunks_exact(5) {
        for (&bits, &want) in row.iter().zip(expected.iter()) {
            assert!((f64::from_bits(bits) - want).abs() <= 1e-12);
        }
    }
    assert_eq!(result.tally.measurements, vec![0; 5]);
}

// ---------------------------------------------------------------------------
// Postselection
// ---------------------------------------------------------------------------
struct PostselectRun {
    program: FactoredInstructionProgram,
    plan: PresampledExpressionPlan,
    block: PresampledExpressionBlock,
}

fn prepare_postselect(program: FactoredInstructionProgram, shots: usize, seed: u64) -> PostselectRun {
    let draws = draw(&program, shots, seed);
    let samples = presample_exogenous_packed(&program, shots, &draws).expect("presample succeeds");
    let mut plan = PresampledExpressionPlan::new();
    prepare_presampled_expression_plan(&mut plan, &program, &samples).expect("plan matches");
    let mut block = PresampledExpressionBlock::new();
    evaluate_presampled_expression_block(&mut block, &plan, &samples).expect("block evaluates");
    PostselectRun { program, plan, block }
}

fn run_postselected(
    run: &PostselectRun,
    shots: usize,
    seed: u64,
    shot_major: bool,
    denominator: usize,
) -> (usize, usize, Vec<u64>) {
    let zero = Complex64::new(0.0, 0.0);
    let one = Complex64::new(1.0, 0.0);
    let mut runtime = BatchFactoredExecutorState::new(&run.program, shots, seed, zero, one)
        .expect("runtime builds");
    runtime.dense_shot_major_active = shot_major;
    reset_batch_executor(&mut runtime, &run.program, shots, zero, one).expect("reset succeeds");
    runtime.rng_state = seed;
    let mut scratch = BatchDetectorPostselectionScratch::default();
    let options = BatchDetectorPostselectionOptions {
        mask_dead_shots_min_fraction_denominator: denominator,
        ..BatchDetectorPostselectionOptions::default()
    };
    let result = execute_batch_postselected_in_place(
        &Doubles,
        &mut runtime,
        &run.program,
        &run.plan,
        &run.block,
        0,
        &mut scratch,
        &options,
    )
    .expect("postselected execution succeeds");
    (result.discarded, result.accepted, runtime.measurement_words.clone())
}

/// `M 0` or `M !0`, and a discarding detector on the record.
fn discard(value: bool) -> FactoredInstructionProgram {
    program(
        1,
        0,
        1,
        vec![
            record(SymbolicBool::from(value), 1, 1),
            detector(1, &[1], SymbolicBool::from(value), true),
        ],
    )
}

#[test]
fn postselection_discards_every_shot_of_a_fired_detector() {
    let run = prepare_postselect(discard(true), 8, 3);
    let (discarded, accepted, _) = run_postselected(&run, 8, 3, false, 2);
    assert_eq!(discarded, 8);
    assert_eq!(accepted, 0);
}

#[test]
fn postselection_keeps_every_shot_of_a_quiet_detector() {
    let run = prepare_postselect(discard(false), 8, 3);
    let (discarded, accepted, measurement_words) = run_postselected(&run, 8, 3, false, 2);
    assert_eq!(discarded, 0);
    assert_eq!(accepted, 8);
    assert_eq!(measurement_words[0], 0);
}

fn runtime_for(
    program: &FactoredInstructionProgram,
    shots: usize,
    seed: u64,
) -> BatchFactoredExecutorState<Complex64> {
    let zero = Complex64::new(0.0, 0.0);
    let one = Complex64::new(1.0, 0.0);
    BatchFactoredExecutorState::new(program, shots, seed, zero, one).expect("runtime builds")
}

#[test]
fn a_run_that_discards_nothing_is_a_plain_run() {
    // `M 0`, a discarding detector that stays quiet, then a coin that is read twice.
    let planned = program(
        2,
        1,
        4,
        vec![
            record(SymbolicBool::from(false), 1, 1),
            detector(1, &[1], SymbolicBool::from(false), true),
            promote(EIGHTH),
            measure(kernel(1, 0, 1), 2, 2, 3),
            record(symbolic_bool(2), 3, 4),
        ],
    );
    let run = prepare_postselect(planned, 100, 9);
    let mut plain = runtime_for(&run.program, 100, 9);
    let mut selected = runtime_for(&run.program, 100, 9);
    execute_batch_in_place_expressions(
        &Doubles,
        &mut plain,
        &run.program,
        &run.plan,
        &run.block,
        0,
    )
    .expect("plain execution succeeds");
    let mut scratch = BatchDetectorPostselectionScratch::default();
    let result = execute_batch_postselected_in_place(
        &Doubles,
        &mut selected,
        &run.program,
        &run.plan,
        &run.block,
        0,
        &mut scratch,
        &BatchDetectorPostselectionOptions::default(),
    )
    .expect("postselected execution succeeds");
    assert_eq!((result.discarded, result.accepted), (0, 100));
    assert_eq!(selected.measurement_words, plain.measurement_words);
    assert_eq!(selected.rng_state, plain.rng_state);
    assert_eq!((selected.k, selected.ndormant), (plain.k, plain.ndormant));
    assert_eq!(selected.active_shots, plain.active_shots);
    let batch_words = selected.batch_words;
    assert!(selected.measurement_words[batch_words] != 0, "the coin falls both ways");
    assert_eq!(
        selected.measurement_words[batch_words..2 * batch_words],
        selected.measurement_words[2 * batch_words..3 * batch_words],
    );
}

#[test]
fn compaction_moves_only_what_is_still_read() {
    let planned = program(
        1,
        0,
        2,
        vec![
            record(SymbolicBool::from(false), 1, 1),
            record(SymbolicBool::from(false), 2, 2),
        ],
    );
    let mut runtime = runtime_for(&planned, 8, 1);
    runtime.measurement_words[0] = 0b1100_1010;
    let second = runtime.batch_words;
    runtime.measurement_words[second] = 0b1100_1010;
    let mut words: Vec<u64> = vec![];

    // Every shot survives: nothing changes.
    compact_surviving_shots(&mut runtime, &[0xff], &vec![9; 3], &vec![0, 9, 9], 5, &mut words, None);
    assert_eq!(runtime.active_shots, 8);
    assert_eq!(runtime.measurement_words[0], 0b1100_1010);

    // Record 1 is last read at 3, record 2 at 9: of the two only the second moves.
    compact_surviving_shots(
        &mut runtime,
        &[0b1010_1010],
        &vec![9; 3],
        &vec![0, 3, 9],
        5,
        &mut words,
        None,
    );
    assert_eq!(runtime.active_shots, 4);
    assert_eq!(runtime.measurement_words[0], 0b1100_1010);
    assert_eq!(runtime.measurement_words[second], 0b1011);

    // No shot survives: the records keep their bits.
    compact_surviving_shots(&mut runtime, &[0], &vec![9; 3], &vec![0, 9, 9], 5, &mut words, None);
    assert_eq!(runtime.active_shots, 0);
    assert_eq!(runtime.measurement_words[second], 0b1011);
}

fn action(nqubits: usize, xmask: u64, zmask: u64) -> PauliAction {
    PauliAction { nqubits, xmask, zmask }
}

#[test]
fn a_pauli_brings_each_state_its_partner() {
    let mix = |other: usize, quarter: u8| Mix { other, quarter };
    assert_eq!(rotation_mixes(action(1, 1, 0), 2), vec![mix(1, 0), mix(0, 0)]);
    assert_eq!(rotation_mixes(action(1, 0, 1), 2), vec![mix(0, 0), mix(1, 2)]);
    // Y takes 0 to i times 1, and 1 to -i times 0.
    assert_eq!(rotation_mixes(action(1, 1, 1), 2), vec![mix(1, 3), mix(0, 1)]);
    // X on qubit 0 and Z on qubit 1.
    assert_eq!(
        rotation_mixes(action(2, 1, 2), 4),
        vec![mix(1, 0), mix(0, 0), mix(3, 2), mix(2, 2)]
    );
    for (xmask, zmask) in [(5, 3), (7, 7), (2, 6), (0, 5)] {
        let mixes = rotation_mixes(action(3, xmask, zmask), 8);
        for (basis, mix) in mixes.iter().enumerate() {
            let back = mixes[mix.other];
            assert_eq!(back.other, basis);
            assert_eq!((mix.quarter + back.quarter) % 4, 0);
        }
    }
}

#[test]
fn a_projection_reads_each_state_once() {
    // Z on qubits 1 and 2 of three: the even states, then the odd ones.
    let parity = kernel(3, 0, 6);
    let read = |joints: Vec<Joint>| -> Vec<usize> {
        assert!(joints.iter().all(|joint| joint.mix.is_none()));
        joints.iter().map(|joint| joint.source).collect()
    };
    assert_eq!(read(projection_joints(parity, false, 4)), vec![0, 1, 6, 7]);
    assert_eq!(read(projection_joints(parity, true, 4)), vec![2, 3, 4, 5]);

    // Y on qubit 1 of two: each pair differs there.
    let flip = kernel(2, 2, 2);
    let plus = projection_joints(flip, false, 2);
    let minus = projection_joints(flip, true, 2);
    assert_eq!(
        plus,
        vec![
            Joint { source: 0, mix: Some(Mix { other: 2, quarter: 3 }) },
            Joint { source: 1, mix: Some(Mix { other: 3, quarter: 3 }) },
        ]
    );
    for (here, there) in plus.iter().zip(&minus) {
        let (a, b) = (here.mix.expect("a pair"), there.mix.expect("a pair"));
        assert_eq!((here.source, a.other), (there.source, b.other));
        assert_eq!((a.quarter + 2) % 4, b.quarter, "the branches differ in the sign");
    }
}

#[test]
fn signs_are_shared_or_mixed() {
    let runtime = runtime_for(&program(1, 0, 0, vec![]), 3, 1);
    assert_eq!(batch_sign_mode(&runtime, &[0b1000]), BatchSignMode::AllMinus);
    assert_eq!(batch_sign_mode(&runtime, &[0b0111]), BatchSignMode::AllPlus);
    assert_eq!(batch_sign_mode(&runtime, &[0b0101]), BatchSignMode::Mixed);
}

/// `X_ERROR(0.125) 0`, `M 0`, a discarding detector, `H 1`, `T 1`, `T_DAG 1`,
/// `H 1` and `M 1`.
fn discard_then_rotate() -> FactoredInstructionProgram {
    flipped(
        0.125,
        program(
            2,
            1,
            4,
            vec![
                record(symbolic_bool(1), 1, 2),
                detector(1, &[1], symbolic_bool(1), true),
                promote(EIGHTH),
                rotate(1, 1, 0, -EIGHTH),
                measure(kernel(1, 0, 1), 3, 2, 4),
            ],
        ),
    )
}

#[test]
fn postselection_compaction_strategies_agree() {
    let run = prepare_postselect(discard_then_rotate(), 130, 41);
    let default_strategy = run_postselected(&run, 130, 41, false, 2);
    let eager_strategy = run_postselected(&run, 130, 41, false, 1);
    assert!(default_strategy.0 > 0, "some shots should discard");
    assert_eq!(default_strategy.0, eager_strategy.0);
    assert_eq!(default_strategy.1, eager_strategy.1);
    let live = default_strategy.1;
    let live_words = live.div_ceil(64);
    let nrecords = run.program.nrecords;
    let batch_words = default_strategy.2.len() / nrecords.max(1);
    for record in 0..nrecords {
        let base = record * batch_words;
        for word in 0..live_words {
            let remaining = live - word * 64;
            let mask = if remaining >= 64 {
                u64::MAX
            } else {
                (1u64 << remaining) - 1
            };
            assert_eq!(
                default_strategy.2[base + word] & mask,
                eager_strategy.2[base + word] & mask,
                "record {record} word {word} differs between compaction strategies"
            );
        }
    }

    let shot_major = run_postselected(&run, 130, 41, true, 2);
    assert_eq!(shot_major.0, default_strategy.0);
    assert_eq!(shot_major.1, default_strategy.1);
}

#[test]
fn postselection_defaults() {
    let options = BatchDetectorPostselectionOptions::default();
    assert_eq!(options.mask_dead_shots_min_fraction_denominator, 2);
    assert!(options.retained_record_uses.is_none());
    assert!(options.expected_detectors.is_empty());
    let result = BatchDetectorPostselectionResult::default();
    assert_eq!((result.discarded, result.accepted), (0, 0));
}

fn compress_bits_reference(bits: u64, keep_mask: u64) -> u64 {
    let mut out = 0;
    let mut dest = 0;
    for source in 0..64 {
        if keep_mask >> source & 1 != 0 {
            out |= (bits >> source & 1) << dest;
            dest += 1;
        }
    }
    out
}

#[test]
fn dispatched_bit_compression_matches_reference() {
    let mut bits = 0x0123_4567_89ab_cdefu64;
    let mut mask = 0xf0f0_00ff_aaaa_5555u64;
    for _ in 0..4096 {
        let expected = compress_bits_reference(bits, mask);
        assert_eq!(compress_bits(bits, mask), expected);
        bits = bits.wrapping_mul(0x9e37_79b9_7f4a_7c15).rotate_left(17);
        mask = mask.wrapping_add(0xd1b5_4a32_d192_ed03).rotate_right(11);
    }
    assert_eq!(compress_bits(u64::MAX, 0), 0);
    assert_eq!(compress_bits(bits, u64::MAX), bits);
}

#[test]
fn residual_xor_fast_shapes_match_wordwise_parity() {
    let program = FactoredInstructionProgram {
        nsymbols: 2,
        ..FactoredInstructionProgram::default()
    };
    let plan = plan_of(&SymbolicBool::new(true, vec![1, 2]));
    for (capacity, shots) in [(64usize, 37usize), (128, 37), (128, 128)] {
        let mut runtime = BatchFactoredExecutorState::new(
            &program,
            capacity,
            1,
            Complex64::new(0.0, 0.0),
            Complex64::new(1.0, 0.0),
        )
        .expect("batch runtime builds");
        runtime.active_shots = shots;
        let first = [0x0f0f_0f0f_0f0f_0f0fu64, 0xaaaa_aaaa_aaaa_aaaa];
        let second = [0x3333_3333_3333_3333u64, 0x5555_5555_5555_5555];
        let words = runtime.batch_words;
        assign_batch_symbol(&mut runtime, 1, &first[..words]).expect("first symbol assigns");
        assign_batch_symbol(&mut runtime, 2, &second[..words]).expect("second symbol assigns");

        let mut actual = vec![0x0123_4567_89ab_cdefu64; words];
        let mut expected = actual.clone();
        let nwords = runtime.live_word_count();
        for word in 0..nwords {
            expected[word] =
                (expected[word] ^ first[word] ^ second[word]) ^ runtime.live_word_mask(word);
            expected[word] &= runtime.live_word_mask(word);
        }
        expected[nwords..].fill(0);

        xor_symbolic_bool_batch_into(&mut actual, &plan, &runtime)
            .expect("residual expression evaluates");
        assert_eq!(actual, expected, "capacity={capacity}, shots={shots}");
        assert!(batch_bit_at(&first, 0) && !batch_bit_at(&first, 4) && !batch_bit_at(&first, 500));
    }
}

#[test]
fn an_unassigned_symbol_is_reported() {
    let program = FactoredInstructionProgram {
        nsymbols: 2,
        ..FactoredInstructionProgram::default()
    };
    let runtime = BatchFactoredExecutorState::new(
        &program,
        64,
        1,
        Complex64::new(0.0, 0.0),
        Complex64::new(1.0, 0.0),
    )
    .expect("batch runtime builds");
    let plan = plan_of(&symbolic_bool(2));
    let mut out = vec![0u64; 1];
    let error = xor_symbolic_bool_batch_into(&mut out, &plan, &runtime).expect_err("unassigned");
    assert!(matches!(error, TicitError::Message(_)), "{error:?}");
}

// ---------------------------------------------------------------------------
// Expressions and noise tables
// ---------------------------------------------------------------------------
fn symmetric_difference(lhs: &[i32], rhs: &[i32]) -> Vec<i32> {
    let mut out: Vec<i32> = lhs
        .iter()
        .filter(|c| !rhs.contains(c))
        .chain(rhs.iter().filter(|c| !lhs.contains(c)))
        .copied()
        .collect();
    out.sort_unstable();
    out
}

/// Every earlier expression is tried as a parent, in order.
fn reference_parent_deltas(blocks: &mut [PresampledExpression]) {
    for index in 0..blocks.len() {
        let own = blocks[index].clone();
        blocks[index].parent_block_expression_index = None;
        blocks[index].parent_delta_constant = own.constant;
        blocks[index].parent_delta_exogenous_conditions = own.exogenous_conditions.clone();
        let mut best_cost = own.exogenous_conditions.len() + usize::from(own.constant);
        for parent_index in 0..index {
            let parent = &blocks[parent_index];
            let delta = symmetric_difference(&parent.exogenous_conditions, &own.exogenous_conditions);
            let delta_constant = parent.constant != own.constant;
            let cost = delta.len() + usize::from(delta_constant);
            if cost < best_cost {
                best_cost = cost;
                blocks[index].parent_block_expression_index = Some(parent_index);
                blocks[index].parent_delta_constant = delta_constant;
                blocks[index].parent_delta_exogenous_conditions = delta;
            }
        }
    }
}

fn pseudo_random_partials(seed: &mut u64, count: usize) -> Vec<PresampledExpression> {
    let mut seen = std::collections::HashSet::new();
    let mut out = Vec::new();
    while out.len() < count {
        let bits = next_random_u64(seed);
        let constant = bits & 1 != 0;
        let nconditions = ((bits >> 1) % 6) as usize;
        let mut conditions: Vec<i32> = (0..nconditions)
            .map(|_| (next_random_u64(seed) % 9 + 1) as i32)
            .collect();
        conditions.sort_unstable();
        conditions.dedup();
        if seen.insert((constant, conditions.clone())) {
            out.push(PresampledExpression {
                constant,
                exogenous_conditions: conditions,
                ..PresampledExpression::default()
            });
        }
    }
    out
}

#[test]
fn candidate_parent_search_matches_full_scan() {
    let mut seed = 20260808;
    for case in 0..200 {
        let count = 1 + case % 40;
        let mut fast = pseudo_random_partials(&mut seed, count);
        let mut reference = fast.clone();
        prepare_block_expression_parent_deltas(&mut fast);
        reference_parent_deltas(&mut reference);
        for (fast, reference) in fast.iter().zip(&reference) {
            assert_eq!(
                fast.parent_block_expression_index,
                reference.parent_block_expression_index
            );
            assert_eq!(fast.parent_delta_constant, reference.parent_delta_constant);
            assert_eq!(
                fast.parent_delta_exogenous_conditions,
                reference.parent_delta_exogenous_conditions
            );
        }
    }
}

fn sampled_bit(samples: &PackedPresampledExogenous, condition: i32, shot: usize) -> bool {
    if samples.is_sparse_condition(condition) {
        samples.sparse_condition_hits(condition).contains(&(shot as u32))
    } else {
        let base = (condition as usize - 1) * samples.shot_words;
        batch_bit_at(&samples.value_words[base..base + samples.shot_words], shot)
    }
}

/// Two symbols of a categorical distribution, one biased symbol, two of a
/// low-probability group and one rare symbol.
fn every_family() -> FactoredInstructionProgram {
    FactoredInstructionProgram {
        nsymbols: 6,
        sampled_categorical_distributions: vec![SymbolicCategoricalDistribution {
            nbits: 2,
            conditions: vec![1, 2],
            assignments: vec![vec![0], vec![1], vec![3]],
            probabilities: vec![0.5f64.to_bits(), 0.25f64.to_bits(), 0.25f64.to_bits()],
        }],
        sampled_bernoulli_conditions: vec![3],
        sampled_bernoulli_probabilities: vec![0.5f64.to_bits()],
        sampled_low_probability_bernoulli_groups: vec![BernoulliSampleGroup {
            conditions: vec![4, 5],
            probability: 0.01f64.to_bits(),
        }],
        sampled_rare_categorical_groups: vec![RareCategoricalSampleGroup {
            conditions: vec![vec![6]],
            assignments: vec![vec![0], vec![1]],
            event_rows: vec![1],
            event_probabilities: vec![1.0f64.to_bits()],
            event_probability: 0.02f64.to_bits(),
        }],
        ..FactoredInstructionProgram::default()
    }
}

fn every_family_draws(shots: usize) -> ExogenousDraws {
    ExogenousDraws {
        categorical: vec![(0..shots).map(|shot| shot % 3).collect()],
        rare: vec![RareDraw { gaps: vec![2, 4, 1000], events: vec![0, 0, 0], dense: false }],
        bernoulli: vec![BiasedDraw { invert: true, coins: BiasedCoins::Skip(vec![0, 5, 1000]) }],
        low: vec![SkipDraw { gaps: vec![3, 1, 1000], dense: false }],
    }
}

#[test]
fn every_family_of_noise_lands_on_its_shots() {
    let program = every_family();
    let shots = 12;
    let samples = presample_exogenous_packed(&program, shots, &every_family_draws(shots))
        .expect("presampling succeeds");
    assert_eq!(samples.nshots, shots);
    let low = skip_positions(&vec![3, 1, 1000], 2 * shots as u64);
    let rare = skip_positions(&vec![2, 4, 1000], shots as u64);
    let skipped = skip_positions(&vec![0, 5, 1000], shots as u64);
    assert_eq!(skipped, vec![0, 6]);
    for shot in 0..shots {
        assert_eq!(sampled_bit(&samples, 1, shot), shot % 3 != 0, "symbol 1 of shot {shot}");
        assert_eq!(sampled_bit(&samples, 2, shot), shot % 3 == 2, "symbol 2 of shot {shot}");
        assert_eq!(sampled_bit(&samples, 3, shot), !skipped.contains(&(shot as u64)));
        assert_eq!(sampled_bit(&samples, 4, shot), low.contains(&(2 * shot as u64)));
        assert_eq!(sampled_bit(&samples, 5, shot), low.contains(&(2 * shot as u64 + 1)));
        assert_eq!(sampled_bit(&samples, 6, shot), rare.contains(&(shot as u64)));
    }
}

#[test]
fn a_table_is_prepared_for_one_program() {
    let program = every_family();
    assert_eq!(exogenous_assigned_words(&program).expect("in range"), vec![0b11_1111]);
    let mut samples = PackedPresampledExogenous::new();
    prepare_presampled_exogenous_packed(&mut samples, &program).expect("prepares");
    resample_prepared_exogenous_packed_in_place(&mut samples, &program, 12, &every_family_draws(12))
        .expect("resamples");

    let mut blank = PackedPresampledExogenous::new();
    let error = resample_prepared_exogenous_packed_in_place(
        &mut blank,
        &program,
        12,
        &every_family_draws(12),
    )
    .expect_err("never prepared");
    assert_eq!(
        error.to_string(),
        "packed presampled exogenous storage was not prepared for this program"
    );

    let outside = FactoredInstructionProgram {
        nsymbols: 2,
        sampled_bernoulli_conditions: vec![70],
        sampled_bernoulli_probabilities: vec![0.5f64.to_bits()],
        ..FactoredInstructionProgram::default()
    };
    assert_eq!(
        exogenous_assigned_words(&outside).expect_err("symbol 70 of 2").to_string(),
        "exogenous condition exceeds program symbol table"
    );
}

// ---------------------------------------------------------------------------
// Prepared samplers
// ---------------------------------------------------------------------------
/// The noise and the branch seeds of every chunk of a call.
fn chunk_noise(sampler: &Sampler<Complex64>, shots: u64, seed: u64) -> Vec<ChunkNoise> {
    let plan = &sampler.plan;
    let chunk = plan.options.sample_chunk_shots as u64;
    let blocks = chunk.div_ceil(plan.options.batch_size as u64);
    (0..shots.div_ceil(chunk))
        .map(|index| {
            let here = chunk.min(shots - index * chunk) as usize;
            let mut state = seed ^ EXOGENOUS_SEED_BASE ^ (index << 32);
            ChunkNoise {
                draws: draw(&plan.program, here, next_random_u64(&mut state)),
                branch_seeds: (0..blocks)
                    .map(|local| {
                        let mut state = seed ^ BRANCH_SEED_BASE ^ ((index * blocks + local) << 32);
                        next_random_u64(&mut state)
                    })
                    .collect(),
            }
        })
        .collect()
}

fn sample_with_seed(
    sampler: &mut Sampler<Complex64>,
    shots: u64,
    seed: u64,
    keep_records: bool,
    bit_packed: bool,
) -> SampleResult {
    let noise = chunk_noise(sampler, shots, seed);
    assert!(noise_covers(&sampler.plan, shots, &noise));
    sample_impl(&Doubles, sampler, shots, &noise, keep_records, bit_packed)
        .expect("sampling succeeds")
}

fn declared(index: usize, records: &[i32]) -> CircuitObservableInclude {
    CircuitObservableInclude { index, records: records.to_vec() }
}

fn by_observable(observables: &[CircuitObservableInclude]) -> Vec<Vec<Vec<i32>>> {
    let count = observables.iter().map(|o| o.index + 1).max().unwrap_or(0);
    logical_records_by_observable(observables, count)
}

fn sampling_input(
    program: FactoredInstructionProgram,
    observables: &[CircuitObservableInclude],
    observable: usize,
) -> SamplingInput {
    let observable_records = by_observable(observables);
    SamplingInput {
        program,
        observable_includes: observable_records.len(),
        observable_records,
        observable,
    }
}

fn prepared(
    program: FactoredInstructionProgram,
    observables: &[CircuitObservableInclude],
    options: SamplerOptions,
) -> Sampler<Complex64> {
    let input = sampling_input(program, observables, options.observable);
    assert!(can_prepare(&input, &options));
    Sampler::from_input(&Doubles, input, options, "portable").expect("sampler builds")
}

/// `M !0` on one qubit.
fn inverted() -> FactoredInstruction {
    record(SymbolicBool::from(true), 1, 1)
}

#[test]
fn estimate_matches_the_cli_conventions() {
    let mut plain = prepared(
        program(1, 0, 1, vec![inverted()]),
        &[declared(0, &[1])],
        SamplerOptions::default(),
    );
    let summary = sample_with_seed(&mut plain, 5, 1, false, false).tally.counts;
    assert_eq!(summary.shots, 5);
    assert_eq!(summary.discarded, 0);
    assert_eq!(summary.accepted, 5);
    assert_eq!(summary.logical_errors, 5);

    let fired = detector(1, &[1], SymbolicBool::from(true), true);
    let mut discarding = prepared(
        program(1, 0, 1, vec![inverted(), fired]),
        &[declared(0, &[1])],
        SamplerOptions::default(),
    );
    let summary = sample_with_seed(&mut discarding, 5, 1, false, false).tally.counts;
    assert_eq!(summary.discarded, 5);
    assert_eq!(summary.accepted, 0);

    let mut two = prepared(
        program(1, 0, 1, vec![inverted()]),
        &[declared(0, &[1]), declared(1, &[1])],
        SamplerOptions::default(),
    );
    let summary = sample_with_seed(&mut two, 5, 1, false, false).tally.counts;
    assert_eq!(summary.logical_errors, 5, "classifies by observable 0 only");
}

#[test]
fn batch_sampler_defaults_follow_the_cpp_sizing() {
    let sampler = prepared(t_gate(), &[declared(0, &[1])], SamplerOptions::default());
    let info = &sampler.plan.info;
    assert_eq!(info.batch_size, 2048);
    assert_eq!(info.sample_chunk_shots, 2048);
    assert_eq!(info.threads, 1);
    assert!(!info.detector_postselection);
    assert_eq!(info.cpu_backend, "portable");
}

#[test]
fn logical_counts_flag_a_deterministic_flip() {
    let mut sampler = prepared(
        program(1, 0, 1, vec![inverted()]),
        &[declared(0, &[1])],
        SamplerOptions::default(),
    );
    let counts = sample_with_seed(&mut sampler, 100, 3, true, false).tally.counts;
    assert_eq!(counts.shots, 100);
    assert_eq!(counts.discarded, 0);
    assert_eq!(counts.accepted, 100);
    assert_eq!(counts.logical_errors, 100);
}

#[test]
fn noiseless_reference_normalizes_outputs_before_counting() {
    // `X 0`, `M 0`, a detector on the record, an empty observable and one on the
    // record.
    let planned = program(
        1,
        0,
        1,
        vec![inverted(), detector(1, &[1], SymbolicBool::from(true), true)],
    );
    let observables = [declared(0, &[]), declared(1, &[1])];
    let groups = by_observable(&observables);
    let reference =
        reference_sample_for_program(&Doubles, &planned, &groups).expect("reference samples");
    assert_eq!(reference.detectors, [1]);
    assert_eq!(reference.observables, [0, 1]);

    let mut sampler = prepared(
        planned,
        &observables,
        SamplerOptions {
            observable: 1,
            postselection_mask: vec![1],
            normalize_syndromes: true,
            ..SamplerOptions::default()
        },
    );
    let result = sample_with_seed(&mut sampler, 4, 7, true, false).tally;
    assert_eq!(
        result.counts,
        SampleCounts { shots: 4, discarded: 0, accepted: 4, logical_errors: 0 }
    );
    assert_eq!(result.detectors, [0; 4]);
    assert_eq!(result.observables, [0; 8]);
    assert_eq!(result.observable_ones, [0, 0]);
}

#[test]
fn packed_rows_match_numpy_little_bit_order() {
    let columns = [1u64, 1, 1, 1, 1, 1, 1, 1, 0, 0, 1];
    let mut packed = Vec::new();
    append_bit_rows(&mut packed, &columns, &[], columns.len(), 1, 1, true);
    assert_eq!(packed, [0xff, 0x04]);
}

#[test]
fn sample_returns_row_major_clifft_shaped_records() {
    // `M !0`, `M 1`, a detector on both, observables 0 and 2, and a probe of `Z0`.
    let planned = program(
        2,
        0,
        2,
        vec![
            inverted(),
            record(SymbolicBool::from(false), 2, 2),
            detector(1, &[1, 2], SymbolicBool::from(true), false),
            fixed_probe(false, 0),
        ],
    );
    let mut sampler = prepared(
        planned,
        &[declared(0, &[1]), declared(2, &[2])],
        SamplerOptions::default(),
    );
    let result = sample_with_seed(&mut sampler, 3, 7, true, false);

    assert_eq!(result.tally.measurements, vec![1, 0, 1, 0, 1, 0]);
    assert_eq!(result.tally.detectors, vec![1, 1, 1]);
    assert_eq!(result.tally.observables, vec![1, 0, 0, 1, 0, 0, 1, 0, 0]);
    assert_eq!(result.tally.observable_ones, vec![3, 0, 0]);
    assert_eq!(result.tally.exp_vals, vec![1.0f64.to_bits(); 3]);
    assert_eq!(result.record_rows, 3);

    let packed = sample_with_seed(&mut sampler, 3, 7, true, true);
    assert!(packed.bit_packed);
    assert_eq!(packed.tally.measurements, vec![1; 3]);
    assert_eq!(packed.tally.detectors, vec![1; 3]);
    assert_eq!(packed.tally.observables, vec![1; 3]);
    assert_eq!(packed.tally.observable_ones, result.tally.observable_ones);
    assert_eq!(packed.tally.exp_vals, result.tally.exp_vals);

    // Two records, one detector, three observables and one probe, in whole bytes.
    assert_eq!(result.tally.measurements.len(), 3 * 2);
    assert_eq!(result.tally.detectors.len(), 3);
    assert_eq!(result.tally.observables.len(), 3 * 3);
    assert_eq!(packed.tally.measurements.len(), 3);

    let counts_only = sample_with_seed(&mut sampler, 3, 7, false, false);
    assert!(counts_only.tally.detectors.is_empty());
    assert!(counts_only.tally.observables.is_empty());
    assert!(counts_only.tally.exp_vals.is_empty());
    assert_eq!(counts_only.tally.counts, result.tally.counts);
    assert_eq!(counts_only.tally.observable_ones, result.tally.observable_ones);
    assert_eq!(counts_only.record_rows, 0);
    assert!(counts_only.tally.measurements.is_empty());
}

#[test]
fn postselection_returns_only_survivor_rows() {
    // A probe of `Z1`, `M !1` with a detector, `X_ERROR(0.5) 0`, `M 0` with a
    // discarding detector, and an observable on the first record.
    let planned = flipped(
        0.5,
        program(
            2,
            0,
            3,
            vec![
                fixed_probe(false, 0),
                record(SymbolicBool::from(true), 1, 2),
                detector(1, &[1], SymbolicBool::from(true), false),
                record(symbolic_bool(1), 2, 3),
                detector(2, &[2], symbolic_bool(1), true),
            ],
        ),
    );
    let mut sampler = prepared(
        planned,
        &[declared(0, &[1])],
        SamplerOptions {
            postselection_mask: vec![0, 1],
            batch_size: 16,
            ..SamplerOptions::default()
        },
    );
    let result = sample_with_seed(&mut sampler, 128, 9, true, false).tally;
    let rows = result.counts.accepted as usize;

    assert!(rows > 0);
    assert!(rows < 128);
    assert!(result.measurements.chunks_exact(2).all(|row| row == [1, 0]));
    assert!(result.detectors.chunks_exact(2).all(|row| row == [1, 0]));
    assert_eq!(result.observables, vec![1; rows]);
    assert_eq!(result.observable_ones, vec![rows as u64]);
    assert_eq!(result.exp_vals, vec![1.0f64.to_bits(); rows]);
}

/// `M !0` with a detector and `M 0` with a discarding one; `mask` makes the first
/// discard too.
fn two_detectors(mask: bool) -> FactoredInstructionProgram {
    program(
        1,
        0,
        2,
        vec![
            inverted(),
            detector(1, &[1], SymbolicBool::from(true), mask),
            record(SymbolicBool::from(false), 2, 2),
            detector(2, &[2], SymbolicBool::from(false), true),
        ],
    )
}

#[test]
fn source_discards_and_the_passed_mask_are_unioned() {
    let mut source_only = prepared(two_detectors(false), &[], SamplerOptions::default());
    let counts = sample_with_seed(&mut source_only, 8, 1, true, false).tally.counts;
    assert_eq!((counts.accepted, counts.discarded), (8, 0));

    let mut union = prepared(
        two_detectors(true),
        &[],
        SamplerOptions { postselection_mask: vec![1], ..SamplerOptions::default() },
    );
    let counts = sample_with_seed(&mut union, 8, 1, true, false).tally.counts;
    assert_eq!((counts.accepted, counts.discarded), (0, 8));

    let mut source_fires = prepared(discard(true), &[], SamplerOptions::default());
    let counts = sample_with_seed(&mut source_fires, 8, 1, true, false).tally.counts;
    assert_eq!((counts.accepted, counts.discarded), (0, 8));
}

/// `X_ERROR(0.125) 0`, `M 0` with a discarding detector, `H 1`, `T 1` and `M 1`
/// with an observable.
fn noisy_magic() -> FactoredInstructionProgram {
    flipped(
        0.125,
        program(
            2,
            1,
            4,
            vec![
                record(symbolic_bool(1), 1, 2),
                detector(1, &[1], symbolic_bool(1), true),
                promote(EIGHTH),
                measure(kernel(1, 1, 0), 3, 2, 4),
            ],
        ),
    )
}

#[test]
fn identical_seeds_reproduce_counts() {
    let mut sampler = prepared(
        noisy_magic(),
        &[declared(0, &[2])],
        SamplerOptions {
            postselection_mask: vec![1],
            batch_size: 32,
            ..SamplerOptions::default()
        },
    );
    let first = sample_with_seed(&mut sampler, 4096, 12, true, false).tally;
    let second = sample_with_seed(&mut sampler, 4096, 12, true, false).tally;
    assert_eq!(first.counts, second.counts);
    assert_eq!(first.measurements, second.measurements);
    assert_eq!(first.detectors, second.detectors);
    assert_eq!(first.observables, second.observables);
    assert!(first.counts.discarded > 0, "the X error should fire");
    assert_eq!(first.counts.accepted + first.counts.discarded, first.counts.shots);
    let other = sample_with_seed(&mut sampler, 4096, 13, true, false).tally;
    assert_ne!(first.counts, other.counts);
}

#[test]
fn batch_threads_preserve_chunk_seeded_counts() {
    let single_options = SamplerOptions {
        postselection_mask: vec![1],
        sample_chunk_shots: 96,
        batch_size: 32,
        threads: 1,
        ..SamplerOptions::default()
    };
    let threaded_options = SamplerOptions { threads: 3, ..single_options.clone() };
    let mut single = prepared(noisy_magic(), &[declared(0, &[2])], single_options);
    let mut threaded = prepared(noisy_magic(), &[declared(0, &[2])], threaded_options);

    let single_result = sample_with_seed(&mut single, 385, 12, true, false);
    let threaded_result = sample_with_seed(&mut threaded, 385, 12, true, false);
    assert_eq!(single_result.active_threads, 1);
    assert_eq!(threaded_result.active_threads, 3);
    assert_eq!(threaded_result.tally.counts, single_result.tally.counts);
    assert_eq!(threaded_result.tally.counts.shots, 385);

    let capped = sample_with_seed(&mut threaded, 95, 13, true, false);
    assert_eq!(capped.active_threads, 1);
}

#[test]
fn sampler_inputs_are_checked() {
    let input = sampling_input(discard(false), &[declared(0, &[1])], 0);
    let error = Sampler::from_input(
        &Doubles,
        input,
        SamplerOptions { expected_detectors: vec![0, 1], ..SamplerOptions::default() },
        "portable",
    )
    .expect_err("two expectations for one detector");
    assert!(matches!(error, TicitError::Message(_)), "{error:?}");

    assert_eq!(ceil_div_u64(10, 4).expect("in range"), 3);
    assert!(ceil_div_u64(1, 0).is_err());
    assert_eq!(checked_output_len(6, 7).expect("in range"), 42);
    let overflow = checked_output_len(u64::MAX, 2).expect_err("past the machine");
    assert_eq!(overflow.to_string(), "sampling output size exceeds usize");
    let observables = [declared(1, &[3]), declared(0, &[1, 2]), declared(1, &[4])];
    assert_eq!(logical_records_for_observable(&observables, 1), vec![vec![3], vec![4]]);
    assert_eq!(by_observable(&observables).len(), 2);
}

#[test]
fn an_observable_of_a_missing_record_is_reported() {
    let text = |program: FactoredInstructionProgram, keep_records: bool| -> String {
        let mut sampler = prepared(program, &[declared(0, &[9])], SamplerOptions::default());
        let noise = chunk_noise(&sampler, 3, 7);
        match sample_impl(&Doubles, &mut sampler, 3, &noise, keep_records, false) {
            Ok(_) => panic!("record 9 does not exist"),
            Err(error) => error.to_string(),
        }
    };
    let plain = || program(1, 0, 1, vec![record(SymbolicBool::from(false), 1, 1)]);
    let read = "observable references an out-of-range measurement record";
    let retained = "retained record use references an out-of-range measurement record";
    assert_eq!(text(plain(), true), read);
    assert_eq!(text(plain(), false), read);
    assert_eq!(text(discard(false), true), read);
    assert_eq!(text(discard(false), false), retained);
}

/// [`t_gate`] executed as one tensor factor.
fn factored_t_gate() -> FactoredInstructionProgram {
    let step = |kind, payload| ActiveComponentStep { kind, payload };
    FactoredInstructionProgram {
        use_active_components: true,
        active_component_plan: Some(ActiveComponentPlan {
            component_count: 1,
            component_max_k: vec![1],
            initial_components: 0,
            instruction_steps: vec![
                step(ActiveComponentStepKind::Promotion, 0),
                step(ActiveComponentStepKind::Measurement, 0),
            ],
            rotations: vec![],
            promotions: vec![ActiveComponentPromotion { component: 0 }],
            measurements: vec![ActiveComponentMeasurement {
                merge_offset: 0,
                merge_count: 1,
                component: 0,
                kernel: kernel(1, 1, 0),
                deactivate_after: true,
            }],
            merge_components: vec![0],
        }),
        ..t_gate()
    }
}

#[test]
fn factored_execution_draws_the_same_records() {
    assert_eq!(sample(&factored_t_gate(), 200, 32, 23), sample(&t_gate(), 200, 32, 23));
}

// ---------------------------------------------------------------------------
// Checks on programs and draws
// ---------------------------------------------------------------------------
#[test]
fn a_program_that_assigns_a_symbol_twice_cannot_be_prepared() {
    let once = program(2, 0, 2, vec![
        record(SymbolicBool::from(false), 1, 1),
        record(SymbolicBool::from(false), 2, 2),
    ]);
    assert!(is_preparable(&once, 2048, 64));
    let twice = program(2, 0, 2, vec![
        record(SymbolicBool::from(false), 1, 1),
        record(SymbolicBool::from(false), 2, 1),
    ]);
    assert!(!is_preparable(&twice, 2048, 64));
}

#[test]
fn a_measurement_may_name_its_record_by_its_branch() {
    let planned = program(1, 1, 1, vec![promote(EIGHTH), measure(kernel(1, 0, 1), 1, 1, 1)]);
    assert!(is_preparable(&planned, 2048, 64));
    let apart = program(1, 1, 2, vec![promote(EIGHTH), measure(kernel(1, 0, 1), 1, 1, 2)]);
    let rows = sample(&planned, 300, 64, 17);
    assert_eq!(rows, sample(&apart, 300, 64, 17));
    let ones = rows.iter().filter(|row| record_bit(row, 0)).count();
    assert!(0 < ones && ones < 300, "the coin falls both ways");
}

#[test]
fn a_program_is_prepared_only_in_form() {
    let good = discard_then_rotate();
    assert!(is_preparable(&good, 2048, 64));
    assert!(!is_preparable(&good, 2048, 0), "no shots in a block");
    assert!(!is_preparable(&good, usize::MAX, 64), "a chunk past the index range");

    let mut undeclared = good.clone();
    undeclared.nrecords = 1;
    assert!(!is_preparable(&undeclared, 2048, 64), "record 2 is not declared");

    let mut unnamed = good.clone();
    unnamed.sampled_bernoulli_conditions = vec![0];
    assert!(!is_preparable(&unnamed, 2048, 64), "0 is no symbol");

    let mut shared = good.clone();
    shared.sampled_low_probability_bernoulli_groups =
        vec![BernoulliSampleGroup { conditions: vec![1], probability: 0.01f64.to_bits() }];
    assert!(!is_preparable(&shared, 2048, 64), "symbol 1 is drawn twice");

    let mut skewed = good.clone();
    if let FactoredInstruction::RecordMeasurement(inst) = &mut skewed.instructions[0] {
        inst.outcome_plan.word_masks[0] = 2;
    }
    assert!(!is_preparable(&skewed, 2048, 64), "the mask names another symbol");

    let mut partless = good;
    partless.use_active_components = true;
    assert!(!is_preparable(&partless, 2048, 64), "no component plan");
}

#[test]
fn draws_must_fit_the_program_and_the_shots() {
    let program = discard_then_rotate();
    let draws = draw(&program, 130, 9);
    assert!(draws_fit(&program, &draws, 130));
    assert!(draws_fit(&program, &draws, 192));
    assert!(!draws_fit(&program, &draws, 193), "a fourth word of coins is missing");
    let none = ExogenousDraws { categorical: vec![], rare: vec![], bernoulli: vec![], low: vec![] };
    assert!(!draws_fit(&program, &none, 130));
}

#[test]
fn noise_must_cover_every_chunk() {
    let sampler = prepared(
        discard_then_rotate(),
        &[],
        SamplerOptions { batch_size: 64, sample_chunk_shots: 100, ..SamplerOptions::default() },
    );
    let noise = chunk_noise(&sampler, 250, 5);
    assert_eq!(noise.len(), 3);
    assert!(noise_covers(&sampler.plan, 250, &noise));
    assert!(!noise_covers(&sampler.plan, 301, &noise), "a fourth chunk is missing");
    assert!(!noise_covers(&sampler.plan, 200, &noise), "a chunk too many");
    let mut unseeded = noise.clone();
    unseeded[1].branch_seeds.truncate(1);
    assert!(!noise_covers(&sampler.plan, 250, &unseeded), "a block has no seed");
}

#[test]
fn an_input_with_one_observable_has_records_for_it_alone() {
    let input = make_circuit_sampling_input(discard(false), vec![vec![1]], 1, 3);
    assert_eq!(input.observable_records, vec![vec![], vec![vec![1]], vec![]]);
    assert_eq!((input.observable, input.observable_includes), (1, 3));
    let options = SamplerOptions { observable: 1, ..SamplerOptions::default() };
    assert!(can_prepare(&input, &options));
    let sampler = Sampler::from_input(&Doubles, input, options, "portable").expect("builds");
    let info = sampler.info();
    assert_eq!(info.observables, 3);
    assert_eq!(info.observable, 1);
    assert_eq!(info.measurement_records, 1);
    assert_eq!(info.batch_size, 2048);
    assert!(info.detector_postselection);
}

#[test]
fn packed_rows_hold_one_bit_per_column() {
    let rows = [0x0123_4567_89ab_cdefu64, 0xfedc_ba98_7654_3210];
    for columns in [1usize, 7, 8, 9, 2] {
        let planes: Vec<u64> = (0..columns).map(|c| rows[c % 2].rotate_left(c as u32)).collect();
        let mut plain = Vec::new();
        append_bit_rows(&mut plain, &planes, &[], columns, 1, 40, false);
        let mut packed = Vec::new();
        append_bit_rows(&mut packed, &planes, &[], columns, 1, 40, true);
        assert_eq!(plain.len(), 40 * columns);
        assert_eq!(packed.len(), 40 * columns.div_ceil(8));
        for shot in 0..40 {
            for column in 0..columns {
                let byte = packed[shot * columns.div_ceil(8) + column / 8];
                assert_eq!(byte >> (column % 8) & 1, plain[shot * columns + column]);
            }
        }
    }
}

// ---------------------------------------------------------------------------
// What calls have in common
// ---------------------------------------------------------------------------
#[test]
fn an_empty_call_needs_no_worker() {
    assert_eq!(active_worker_count(4, 0), 0);
    assert_eq!(active_worker_count(4, 3), 3);
    assert_eq!(active_worker_count(4, 9), 4);
    let mut sampler = prepared(
        noisy_magic(),
        &[declared(0, &[2])],
        SamplerOptions { threads: 3, ..SamplerOptions::default() },
    );
    let result = sample_with_seed(&mut sampler, 0, 1, true, false);
    assert_eq!(result.active_threads, 0);
    assert_eq!(result.record_rows, 0);
    assert_eq!(
        result.tally.counts,
        SampleCounts { shots: 0, discarded: 0, accepted: 0, logical_errors: 0 }
    );
    assert!(result.tally.measurements.is_empty());
}

#[test]
fn promotions_are_fused_only_with_a_rotation_behind_them() {
    let lone = program(4, 4, 0, vec![promote(EIGHTH)]);
    assert_eq!(shot_major_promotion_prefix_length(&lone, 0, 8, 1), 0);
    let followed = program(4, 4, 0, vec![promote(EIGHTH), rotate(4, 1, 0, EIGHTH)]);
    assert_eq!(shot_major_promotion_prefix_length(&followed, 0, 8, 1), 1);
    assert_eq!(shot_major_promotion_prefix_length(&followed, 0, 8, 0), 0);
    assert_eq!(shot_major_promotion_prefix_length(&followed, 0, 4, 2), 0);
    let two = program(4, 4, 0, vec![promote(EIGHTH), promote(EIGHTH), rotate(4, 1, 0, EIGHTH)]);
    assert_eq!(shot_major_promotion_prefix_length(&two, 0, 4, 2), 2);
}

/// [`every_family`] with so many symbols that a table of 300 shots passes the size
/// from which rare families are kept sparse.
fn every_family_at_large() -> FactoredInstructionProgram {
    FactoredInstructionProgram { nsymbols: 30_000, ..every_family() }
}

fn resampled(
    program: &FactoredInstructionProgram,
    shots: usize,
    chunks: &[ExogenousDraws],
) -> PackedPresampledExogenous {
    let mut samples = PackedPresampledExogenous::new();
    prepare_presampled_exogenous_packed(&mut samples, program).expect("prepares");
    for draws in chunks {
        assert!(draws_fit(program, draws, shots));
        resample_prepared_exogenous_packed_in_place(&mut samples, program, shots, draws)
            .expect("resamples");
    }
    samples
}

#[test]
fn rare_families_of_a_large_table_are_kept_sparse() {
    let shots = 300;
    let samples = resampled(&every_family_at_large(), shots, &[every_family_draws(shots)]);
    let sparse: Vec<i32> = (1..=6).filter(|&c| samples.is_sparse_condition(c)).collect();
    assert_eq!(sparse, vec![4, 5, 6]);
    assert!(samples.sparse_condition_hits(4).is_empty());
    assert_eq!(samples.sparse_condition_hits(5), &[1, 2]);
    assert_eq!(samples.sparse_condition_hits(6), &[2, 7]);
    assert_eq!(samples.sparse_hit_shots, vec![1, 2, 2, 7]);
    assert_eq!(samples.sparse_hit_offsets.len(), 30_001);
    assert_eq!(samples.sparse_hit_offsets[0], 0);
    assert_eq!(samples.sparse_hit_offsets[4], 0);
    assert_eq!(samples.sparse_hit_offsets[5], 2);
    assert_eq!(samples.sparse_hit_offsets[30_000], 4);
    assert_eq!(
        samples.sparse_condition_words.len(),
        samples.sparse_condition_template_words.len()
    );

    let small = resampled(&every_family(), shots, &[every_family_draws(shots)]);
    assert!((1..=6).all(|c| !small.is_sparse_condition(c)));
    assert!(small.sparse_hit_shots.is_empty());
}

#[test]
fn a_draw_means_the_same_dense_and_sparse() {
    let shots = 300;
    let program = every_family_at_large();
    let sparse_draws = every_family_draws(shots);
    let mut dense_draws = every_family_draws(shots);
    dense_draws.rare[0].dense = true;
    dense_draws.low[0].dense = true;
    let sparse = resampled(&program, shots, &[sparse_draws]);
    let dense = resampled(&program, shots, &[dense_draws]);
    assert!((1..=6).all(|c| !dense.is_sparse_condition(c)));
    for condition in 1..=6 {
        for shot in 0..shots {
            assert_eq!(
                sampled_bit(&dense, condition, shot),
                sampled_bit(&sparse, condition, shot),
                "symbol {condition} of shot {shot}"
            );
        }
    }
}

#[test]
fn nothing_of_an_earlier_chunk_is_left() {
    let shots = 300;
    let program = every_family_at_large();
    let mut earlier = every_family_draws(shots);
    earlier.rare[0] = RareDraw { gaps: vec![0, 0, 0, 1000], events: vec![0, 0, 0, 0], dense: false };
    earlier.low[0] = SkipDraw { gaps: vec![7, 1000], dense: true };
    earlier.categorical[0] = vec![2; shots];
    let fresh = resampled(&program, shots, &[every_family_draws(shots)]);
    let reused = resampled(&program, shots, &[earlier, every_family_draws(shots)]);
    assert_eq!(fresh.value_words, reused.value_words);
    assert_eq!(fresh.sparse_condition_words, reused.sparse_condition_words);
    assert_eq!(fresh.sparse_hit_offsets, reused.sparse_hit_offsets);
    assert_eq!(fresh.sparse_hit_shots, reused.sparse_hit_shots);
}

/// The rows of a result: measurements, detectors and observables of every shot.
fn rows_of(result: &SampleResult) -> Vec<(Vec<u8>, Vec<u8>, Vec<u8>)> {
    let rows = result.record_rows;
    let row = |bytes: &Vec<u8>, r: usize| {
        let width = bytes.len() / rows;
        bytes[r * width..(r + 1) * width].to_vec()
    };
    (0..rows)
        .map(|r| {
            (
                row(&result.tally.measurements, r),
                row(&result.tally.detectors, r),
                row(&result.tally.observables, r),
            )
        })
        .collect()
}

#[test]
fn workers_change_the_order_of_the_rows_alone() {
    let options = |threads: usize| SamplerOptions {
        postselection_mask: vec![1],
        sample_chunk_shots: 96,
        batch_size: 32,
        threads,
        ..SamplerOptions::default()
    };
    let run = |threads: usize| {
        let mut sampler = prepared(noisy_magic(), &[declared(0, &[2])], options(threads));
        sample_with_seed(&mut sampler, 385, 12, true, false)
    };
    let one = run(1);
    let mut expected = rows_of(&one);
    expected.sort();
    for threads in [2, 3, 8] {
        let many = run(threads);
        assert_eq!(many.tally.counts, one.tally.counts);
        assert_eq!(many.tally.observable_ones, one.tally.observable_ones);
        let mut rows = rows_of(&many);
        rows.sort();
        assert_eq!(rows, expected);
        let again = run(threads);
        assert_eq!(again.tally.measurements, many.tally.measurements);
        assert_eq!(again.tally.detectors, many.tally.detectors);
        assert_eq!(again.tally.observables, many.tally.observables);
    }
}

#[test]
fn packing_changes_the_layout_alone() {
    let mut instructions: Vec<FactoredInstruction> = (0..10)
        .map(|i| {
            let outcome = if i % 3 == 0 { symbolic_bool(1) } else { SymbolicBool::from(i % 2 == 0) };
            record(outcome, i + 1, i + 2)
        })
        .collect();
    instructions.push(detector(1, &[1, 2], symbolic_bool(1), false));
    let noisy = flipped(0.5, program(1, 0, 11, instructions));
    let mut sampler = prepared(noisy, &[declared(0, &[1])], SamplerOptions::default());
    let plain = sample_with_seed(&mut sampler, 50, 3, true, false);
    let packed = sample_with_seed(&mut sampler, 50, 3, true, true);
    assert_eq!(packed.tally.counts, plain.tally.counts);
    assert_eq!(packed.record_rows, 50);
    assert_eq!(packed.tally.measurements.len(), 100);
    for r in 0..50 {
        for c in 0..16 {
            let bit = (packed.tally.measurements[2 * r + c / 8] >> (c % 8)) & 1;
            let entry = if c < 10 { plain.tally.measurements[10 * r + c] } else { 0 };
            assert_eq!(bit, entry, "column {c} of row {r}");
        }
        assert_eq!(packed.tally.detectors[r], plain.tally.detectors[r]);
        assert_eq!(packed.tally.observables[r], plain.tally.observables[r]);
    }
}

#[test]
fn rows_hold_the_records_alone() {
    let instructions: Vec<FactoredInstruction> =
        (0..65).map(|i| record(SymbolicBool::from(true), i + 1, i + 1)).collect();
    let rows = sample(&program(1, 0, 65, instructions), 3, 0, 1);
    assert_eq!(rows, vec![vec![u64::MAX, 1]; 3]);
}
