//! Pinned measurement parities.
use ticit::pinning::{plan_pinned_measurements, MeasurementParity};
use ticit::program::{
    FactoredInstruction, FactoredInstructionProgram, IntroduceDormantMeasurementBranch,
    RecordMeasurement,
};
use ticit::symbolic::{symbolic_bool, SymbolicBool, SymbolicBoolEvaluationPlan};

/// A fair coin drawn as `branch` and written to record `record`, whose symbol is
/// `condition`.
fn coin(branch: i32, record: i32, condition: i32) -> FactoredInstruction {
    let outcome = symbolic_bool(branch);
    FactoredInstruction::IntroduceDormantMeasurementBranch(IntroduceDormantMeasurementBranch {
        branch,
        outcome_plan: SymbolicBoolEvaluationPlan::new(&outcome),
        outcome,
        record: Some(record),
        record_condition: Some(condition),
        exp_val: None,
    })
}

/// A measurement whose value is fixed by an expression.
fn fixed(outcome: SymbolicBool, record: i32, condition: i32) -> FactoredInstruction {
    FactoredInstruction::RecordMeasurement(RecordMeasurement {
        outcome_plan: SymbolicBoolEvaluationPlan::new(&outcome),
        outcome,
        record: Some(record),
        record_condition: Some(condition),
        exp_val: None,
    })
}

fn program(instructions: Vec<FactoredInstruction>, nsymbols: usize) -> FactoredInstructionProgram {
    FactoredInstructionProgram {
        n: 2,
        nsymbols,
        nrecords: instructions.len(),
        instructions,
        ..FactoredInstructionProgram::default()
    }
}

/// The plan of `H 0` and `M 0`.
fn one_coin() -> FactoredInstructionProgram {
    program(vec![coin(1, 1, 2)], 2)
}

/// The plan of `M 0`.
fn ground_state() -> FactoredInstructionProgram {
    program(vec![fixed(SymbolicBool::from(false), 1, 1)], 1)
}

/// The plan of `H 0`, `H 1`, `M 0` and `M 1`.
fn two_coins() -> FactoredInstructionProgram {
    program(vec![coin(1, 1, 2), coin(3, 2, 4)], 4)
}

/// The plan of `H 0`, `M 0` and `M 0`.
fn repeated_coin() -> FactoredInstructionProgram {
    program(vec![coin(1, 1, 2), fixed(symbolic_bool(1), 2, 3)], 3)
}

#[test]
fn a_free_coin_is_pinned_at_its_own_instruction() {
    let forced = plan_pinned_measurements(&one_coin(), &[MeasurementParity::new(vec![0], true)])
        .expect("a fair coin can be pinned");
    assert_eq!(forced.len(), 1);
    assert!(forced[0].plan.conditions.is_empty());
    assert!(forced[0].plan.constant);
    assert_eq!(forced[0].instruction, 0);
}

#[test]
fn a_deterministic_record_rejects_the_wrong_value() {
    let error = plan_pinned_measurements(&ground_state(), &[MeasurementParity::new(vec![0], true)])
        .expect_err("|0> always measures 0");
    assert!(error.to_string().contains("deterministic"));
}

#[test]
fn a_deterministic_record_accepts_the_right_value() {
    let forced = plan_pinned_measurements(&ground_state(), &[MeasurementParity::new(vec![0], false)])
        .expect("|0> always measures 0");
    assert!(forced.is_empty());
}

#[test]
fn a_parity_pins_only_its_last_free_coin() {
    let forced = plan_pinned_measurements(&two_coins(), &[MeasurementParity::new(vec![0, 1], true)])
        .expect("two fair coins can meet a parity");
    assert_eq!(forced.len(), 1, "only the last draw is pinned");
    assert_eq!(forced[0].plan.conditions.len(), 1, "it follows the first");
    assert_eq!(forced[0].instruction, 1);
    assert_eq!(forced[0].plan.conditions, vec![1]);
    assert!(forced[0].plan.constant);
}

#[test]
fn independent_constraints_take_distinct_pivots() {
    let forced = plan_pinned_measurements(
        &two_coins(),
        &[
            MeasurementParity::new(vec![0], true),
            MeasurementParity::new(vec![0, 1], false),
        ],
    )
    .expect("independent constraints solve");
    assert_eq!(forced.len(), 2);
    assert_ne!(forced[0].instruction, forced[1].instruction);
}

#[test]
fn contradictory_constraints_are_rejected() {
    let error = plan_pinned_measurements(
        &repeated_coin(),
        &[
            MeasurementParity::new(vec![0], true),
            MeasurementParity::new(vec![1], false),
        ],
    )
    .expect_err("the second measurement repeats the first");
    assert!(error.to_string().contains("deterministic"));
    assert_eq!(
        error.to_string(),
        "pinned measurement parity over [1] is deterministic and cannot be 0"
    );
}

#[test]
fn an_unwritten_record_is_rejected() {
    let error = plan_pinned_measurements(&one_coin(), &[MeasurementParity::new(vec![7], true)])
        .expect_err("record 7 does not exist");
    assert!(error.to_string().contains("not written"));
}

#[test]
fn a_cyclic_expression_is_rejected() {
    let cyclic = program(vec![fixed(symbolic_bool(1), 1, 1)], 1);
    let error = plan_pinned_measurements(&cyclic, &[MeasurementParity::new(vec![0], true)])
        .expect_err("the record is its own symbol");
    assert_eq!(error.to_string(), "measurement record expression is cyclic");
}

#[test]
fn no_constraint_pins_nothing() {
    assert!(plan_pinned_measurements(&two_coins(), &[]).expect("nothing to solve").is_empty());
    let cancelled = [MeasurementParity::new(vec![1, 1], false)];
    assert!(plan_pinned_measurements(&two_coins(), &cancelled).expect("the parity is 0").is_empty());
}

#[test]
fn repeated_records_cancel() {
    let short = plan_pinned_measurements(&two_coins(), &[MeasurementParity::new(vec![0, 1], true)])
        .expect("two coins can be pinned");
    let long = plan_pinned_measurements(
        &two_coins(),
        &[MeasurementParity::new(vec![0, 0, 0, 1], true)],
    )
    .expect("the repetition cancels");
    assert_eq!(short.len(), long.len());
    for (a, b) in short.iter().zip(&long) {
        assert_eq!(a.instruction, b.instruction);
        assert_eq!(a.plan, b.plan);
    }

    let plain = plan_pinned_measurements(&ground_state(), &[MeasurementParity::new(vec![0], true)]);
    let twice = plan_pinned_measurements(
        &ground_state(),
        &[MeasurementParity::new(vec![0, 0, 0], true)],
    );
    assert!(plain.is_err() && twice.is_err());
}
