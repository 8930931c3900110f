//! Symbols are assigned before they are used.
use ticit::causality::{
    require_pending_record_conditions_are_causal, PendingFactoredState, PendingOperation,
};
use ticit::symbolic::{symbolic_bool, SymbolicBool};

fn measurement(condition: i32) -> PendingOperation {
    PendingOperation::PauliMeasurement {
        sign: SymbolicBool::from(false),
        record_condition: Some(condition),
    }
}

#[test]
fn a_symbol_is_used_after_its_measurement() {
    let rotation = PendingOperation::PauliRotation { sign: symbolic_bool(3) };
    let causal = PendingFactoredState { pending_operations: vec![measurement(3), rotation.clone()] };
    assert!(require_pending_record_conditions_are_causal(&causal, "plan").is_ok());

    let early = PendingFactoredState { pending_operations: vec![rotation, measurement(3)] };
    let error = require_pending_record_conditions_are_causal(&early, "plan").expect_err("too early");
    assert_eq!(
        error.to_string(),
        "plan uses measurement condition 3 before it is assigned"
    );
}
