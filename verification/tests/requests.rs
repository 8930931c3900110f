//! Requests to compile and to sample.
use ticit::outputs::{SampleCounts, SampleTally};
use ticit::requests::{
    backend_name, blames_arguments, check_rows, check_shots, plan_compile, BackendName, BackendPlan,
    CircuitSummary, CompileRequest, RequestError,
};
use ticit::sampler::SamplerOptions;
use ticit::schedule::SampleResult;
use ticit::sim_error::SimError;

const CIRCUIT: CircuitSummary = CircuitSummary {
    detectors: 2,
    observables: 1,
    all_detectors_postselected: false,
    has_detector_postselection: false,
};

fn request(options: SamplerOptions, backend: BackendName) -> CompileRequest {
    CompileRequest { options, backend, gpu_chunk_shots: 1_048_576 }
}

fn refused(options: SamplerOptions) -> RequestError {
    plan_compile(request(options, BackendName::Cpu), CIRCUIT, false).expect_err("refused")
}

fn value(text: &str) -> RequestError {
    RequestError::Value(text.to_owned())
}

#[test]
fn a_plain_request_reaches_the_processor() {
    let options = SamplerOptions { postselection_mask: vec![0, 1], ..SamplerOptions::default() };
    assert_eq!(
        plan_compile(request(options.clone(), BackendName::Cpu), CIRCUIT, false),
        Ok(BackendPlan::Cpu(options))
    );
}

#[test]
fn arguments_are_checked_in_order() {
    let base = SamplerOptions::default();
    assert_eq!(
        refused(SamplerOptions { threads: 0, postselection_mask: vec![1], ..base.clone() }),
        value("threads must be positive")
    );
    assert_eq!(
        refused(SamplerOptions { postselection_mask: vec![1], ..base.clone() }),
        value("postselection_mask has length 1, expected 2")
    );
    assert_eq!(
        refused(SamplerOptions {
            normalize_syndromes: true,
            expected_detectors: vec![0],
            ..base.clone()
        }),
        value("normalize_syndromes cannot be combined with expected_detectors or expected_observables")
    );
    assert_eq!(
        refused(SamplerOptions { expected_detectors: vec![0; 13], ..base.clone() }),
        value("expected_detectors has length 13, expected 2")
    );
    assert_eq!(
        refused(SamplerOptions { expected_observables: vec![0, 0], ..base }),
        value("expected_observables has length 2, expected 1")
    );
}

#[test]
fn backends_are_named_without_regard_to_case() {
    assert_eq!(backend_name("CPU", "\"CPU\"".to_owned()), BackendName::Cpu);
    assert_eq!(backend_name("gPu", "\"gPu\"".to_owned()), BackendName::Gpu);
    let other = backend_name("tpu", "\"tpu\"".to_owned());
    assert_eq!(
        plan_compile(request(SamplerOptions::default(), other), CIRCUIT, true),
        Err(value("unknown backend \"tpu\"; expected 'cpu' or 'gpu'"))
    );
}

#[test]
fn the_device_discards_for_all_detectors_or_none() {
    let base = SamplerOptions::default();
    assert_eq!(
        plan_compile(request(base.clone(), BackendName::Gpu), CIRCUIT, false),
        Err(RequestError::Runtime(
            "the GPU backend requires ticit_py built with Cargo feature `gpu`".to_owned()
        ))
    );
    let some = SamplerOptions { postselection_mask: vec![0, 1], ..base.clone() };
    let selective =
        value("the GPU backend supports only no detector postselection or all detectors postselected");
    assert_eq!(
        plan_compile(request(some, BackendName::Gpu), CIRCUIT, true),
        Err(selective.clone())
    );
    let source = CircuitSummary { has_detector_postselection: true, ..CIRCUIT };
    assert_eq!(
        plan_compile(request(base.clone(), BackendName::Gpu), source, true),
        Err(selective)
    );
    let all = SamplerOptions { postselection_mask: vec![1, 1], ..base.clone() };
    assert_eq!(
        plan_compile(request(all.clone(), BackendName::Gpu), source, true),
        Ok(BackendPlan::Gpu { chunk_shots: 1_048_576, postselect_detectors: true, options: all })
    );
    let stalled = CompileRequest { gpu_chunk_shots: 0, ..request(base, BackendName::Gpu) };
    assert_eq!(
        plan_compile(stalled, CIRCUIT, true),
        Err(value("gpu_chunk_shots must be positive"))
    );
}

fn result(record_rows: usize, accepted: u64) -> SampleResult {
    SampleResult {
        tally: SampleTally {
            counts: SampleCounts { shots: 4, discarded: 4 - accepted, accepted, logical_errors: 0 },
            measurements: vec![],
            detectors: vec![],
            observables: vec![],
            observable_ones: vec![],
            exp_vals: vec![],
        },
        active_threads: 1,
        record_rows,
        bit_packed: false,
    }
}

#[test]
fn calls_and_results_are_checked() {
    assert_eq!(check_shots(0), Err(value("shots must be positive")));
    assert_eq!(check_shots(1), Ok(()));
    assert_eq!(check_rows(&result(3, 3), true, "cpu"), Ok(()));
    assert_eq!(check_rows(&result(0, 3), false, "cpu"), Ok(()));
    assert_eq!(
        check_rows(&result(0, 3), true, "gpu"),
        Err(RequestError::Runtime(
            "the gpu backend does not support per-shot record output".to_owned()
        ))
    );
}

#[test]
fn argument_errors_are_told_from_state_errors() {
    assert!(blames_arguments(&SimError::RepeatedQubit(1)));
    assert!(blames_arguments(&SimError::NonHermitianPauli));
    assert!(!blames_arguments(&SimError::RankOverflow { rank: 8, cap: 4 }));
    assert!(!blames_arguments(&SimError::MissingBatchRecord { index: 0 }));
}

#[test]
fn a_backend_name_may_hold_any_character() {
    let name = "çpu";
    let other = backend_name(name, format!("{name:?}"));
    assert_eq!(other, BackendName::Other("\"çpu\"".to_owned()));
    assert_eq!(
        plan_compile(request(SamplerOptions::default(), other), CIRCUIT, true),
        Err(value("unknown backend \"çpu\"; expected 'cpu' or 'gpu'"))
    );
}
