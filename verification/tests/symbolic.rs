//! Affine expressions over symbols, their evaluation plans and the registry.
use ticit::bits::{packed_bit, packed_bits};
use ticit::errors::Result;
use ticit::symbolic::{
    symbolic_bool, xor_bool, xor_bool_constant, SymbolicBool, SymbolicBoolEvaluationPlan,
    SymbolicContext,
};

#[test]
fn constructor_normalizes_conditions() {
    let expr = SymbolicBool::new(false, vec![66, 1, 66, 3, 3, 66]);
    assert_eq!(expr.conditions, vec![1, 66]);
    assert!(!expr.constant);
    assert!(SymbolicBool::new(true, vec![5, 5]).conditions.is_empty());
    assert_eq!(SymbolicBool::from(true), SymbolicBool::new(true, vec![]));
    assert_eq!(SymbolicBool::default(), SymbolicBool::from(false));
}

#[test]
fn xor_is_symmetric_difference() {
    let lhs = SymbolicBool::new(false, vec![1, 66]);
    assert_eq!(xor_bool(&lhs, &symbolic_bool(66)), symbolic_bool(1));
    assert_eq!(
        xor_bool(&symbolic_bool(3), &symbolic_bool(3)),
        SymbolicBool::from(false)
    );
    assert_eq!(
        xor_bool(
            &SymbolicBool::new(false, vec![1, 3]),
            &SymbolicBool::new(false, vec![2, 3, 4])
        ),
        SymbolicBool::new(false, vec![1, 2, 4])
    );
    assert!(xor_bool(&SymbolicBool::from(true), &symbolic_bool(2)).constant);
    assert!(!xor_bool(&SymbolicBool::from(true), &SymbolicBool::new(true, vec![2])).constant);
}

#[test]
fn xor_with_a_literal_keeps_the_symbols() {
    let expr = SymbolicBool::new(true, vec![4, 9]);
    let flipped = xor_bool_constant(&expr, true);
    assert!(!flipped.constant);
    assert_eq!(flipped.conditions, vec![4, 9]);
    assert_eq!(xor_bool_constant(&expr, false), expr);
}

#[test]
fn not_flips_only_the_constant() {
    let expr = SymbolicBool::new(false, vec![2, 7]);
    let negated = !&expr;
    assert!(negated.constant);
    assert_eq!(negated.conditions, expr.conditions);
    assert_eq!(!negated, expr);
    assert_eq!(!SymbolicBool::from(false), SymbolicBool::from(true));
}

#[test]
fn max_condition_reads_the_last_entry() {
    assert_eq!(SymbolicBool::default().max_condition(), 0);
    assert_eq!(SymbolicBool::from(true).max_condition(), 0);
    assert_eq!(SymbolicBool::new(false, vec![8, 3]).max_condition(), 8);
}

#[test]
fn display_spells_out_the_xor() {
    assert_eq!(SymbolicBool::default().to_string(), "0");
    assert_eq!(SymbolicBool::from(true).to_string(), "1");
    assert_eq!(symbolic_bool(4).to_string(), "s4");
    assert_eq!(
        SymbolicBool::new(true, vec![9, 2]).to_string(),
        "1 xor s2 xor s9"
    );
}

#[test]
fn evaluation_plan_coalesces_conditions_sharing_a_word() {
    let expr = SymbolicBool::new(true, vec![129, 1, 65, 2, 64]);
    let plan = SymbolicBoolEvaluationPlan::new(&expr);
    assert!(plan.constant);
    assert_eq!(plan.conditions, vec![1, 2, 64, 65, 129]);
    assert_eq!(plan.word_indices, vec![0, 1, 2]);
    assert_eq!(plan.word_masks, vec![1 | (1 << 1) | (1 << 63), 1, 1]);
}

#[test]
fn evaluation_plan_of_a_constant_has_no_words() {
    let plan = SymbolicBoolEvaluationPlan::new(&SymbolicBool::from(true));
    assert!(plan.constant);
    assert!(plan.conditions.is_empty());
    assert!(plan.word_indices.is_empty());
    assert!(plan.word_masks.is_empty());
    assert_eq!(
        plan,
        SymbolicBoolEvaluationPlan::new(&SymbolicBool::from(true))
    );
}

fn evaluate(plan: &SymbolicBoolEvaluationPlan, symbol_words: &[u64]) -> bool {
    let mut value = plan.constant;
    for (&word, &mask) in plan.word_indices.iter().zip(&plan.word_masks) {
        value ^= (symbol_words[word] & mask).count_ones() % 2 == 1;
    }
    value
}

#[test]
fn evaluation_plan_agrees_with_direct_condition_lookup() {
    let expr = SymbolicBool::new(true, vec![1, 2, 64, 65, 130]);
    let plan = SymbolicBoolEvaluationPlan::new(&expr);
    let symbol_words = vec![0b0101u64, 1 << 1, 0];
    let expected = expr.conditions.iter().fold(expr.constant, |value, &c| {
        value ^ packed_bit(&symbol_words, (c - 1) as usize)
    });
    assert_eq!(evaluate(&plan, &symbol_words), expected);
    assert!(!expected);
}

#[test]
fn conditions_are_allocated_from_one() {
    let mut context = SymbolicContext::new();
    assert_eq!(context.next_condition, 1);
    assert_eq!(context.fresh_condition(), 1);
    assert_eq!(context.fresh_condition(), 2);
    assert_eq!(context.next_condition, 3);

    let mut shifted = SymbolicContext::with_next_condition(12);
    assert_eq!(shifted.fresh_condition(), 12);
}

#[test]
fn bump_lifts_allocation_above_an_existing_expression() {
    let mut context = SymbolicContext::new();
    context.bump_next_condition_for(&SymbolicBool::new(false, (1..=8).collect()));
    assert_eq!(context.fresh_condition(), 9);
    context.bump_next_condition(2);
    assert_eq!(context.fresh_condition(), 10);
    context.bump_next_condition(0);
    assert_eq!(context.next_condition, 11);
}

#[test]
fn fresh_bernoulli_bool_registers_its_probability() {
    let mut context = SymbolicContext::new();
    let first = context
        .fresh_bernoulli_bool(0.25f64.to_bits())
        .expect("valid probability");
    let second = context
        .fresh_bernoulli_bool(0.5f64.to_bits())
        .expect("valid probability");
    assert_eq!(first, symbolic_bool(1));
    assert_eq!(second, symbolic_bool(2));
    assert_eq!(context.bernoulli_probabilities.get(&1), Some(&0.25f64.to_bits()));
    assert_eq!(context.bernoulli_probabilities.get(&2), Some(&0.5f64.to_bits()));
    assert!(context.fresh_bernoulli_condition(1.5f64.to_bits()).is_err());
    assert!(context.fresh_bernoulli_condition((-0.1f64).to_bits()).is_err());
}

#[test]
fn probabilities_at_the_ends_of_the_range_are_accepted() {
    let mut context = SymbolicContext::new();
    for p in [0.0f64, -0.0, 1.0, f64::MIN_POSITIVE] {
        assert!(context.fresh_bernoulli_condition(p.to_bits()).is_ok(), "{p}");
    }
    for p in [f64::NAN, f64::INFINITY, 1.0 + f64::EPSILON, -f64::MIN_POSITIVE] {
        let error = context
            .fresh_bernoulli_condition(p.to_bits())
            .expect_err("not a probability");
        assert_eq!(error.to_string(), "probability must be between 0 and 1");
    }
    assert_eq!(context.next_condition, 5);
}

#[test]
fn bernoulli_probabilities_iterate_in_condition_order() {
    let mut context = SymbolicContext::with_next_condition(60);
    for probability in [0.1f64, 0.2, 0.3, 0.4, 0.5, 0.6, 0.7] {
        context
            .fresh_bernoulli_condition(probability.to_bits())
            .expect("valid probability");
    }
    let ids: Vec<i32> = context.bernoulli_probabilities.keys().copied().collect();
    assert_eq!(ids, vec![60, 61, 62, 63, 64, 65, 66]);
}

fn bits_of(probabilities: &[f64]) -> Vec<u64> {
    probabilities.iter().map(|p| p.to_bits()).collect()
}

fn sums_to_one(probabilities: &[f64]) -> bool {
    (probabilities.iter().sum::<f64>() - 1.0).abs() <= 1e-9
}

fn two_bit_distribution() -> (Vec<Vec<u64>>, Vec<f64>) {
    let assignments = vec![
        packed_bits(&[false, false]),
        packed_bits(&[true, false]),
        packed_bits(&[false, true]),
        packed_bits(&[true, true]),
    ];
    (assignments, vec![0.7, 0.1, 0.1, 0.1])
}

#[test]
fn fresh_categorical_bools_mints_one_symbol_per_bit() {
    let (assignments, probabilities) = two_bit_distribution();
    let mut context = SymbolicContext::new();
    let bools = context
        .fresh_categorical_bools(2, &assignments, &bits_of(&probabilities), sums_to_one(&probabilities))
        .expect("valid distribution");
    assert_eq!(bools, vec![symbolic_bool(1), symbolic_bool(2)]);
    assert_eq!(context.next_condition, 3);
    assert!(context.bernoulli_probabilities.is_empty());

    let distribution = &context.categorical_distributions[0];
    assert_eq!(distribution.nbits, 2);
    assert_eq!(distribution.conditions, vec![1, 2]);
    assert_eq!(distribution.probabilities, bits_of(&probabilities));
    assert!(packed_bit(&distribution.assignments[1], 0));
    assert!(!packed_bit(&distribution.assignments[1], 1));
    assert!(!packed_bit(&distribution.assignments[2], 0));
    assert!(packed_bit(&distribution.assignments[2], 1));
}

#[test]
fn categorical_distributions_accumulate_in_registration_order() {
    let (assignments, probabilities) = two_bit_distribution();
    let mut context = SymbolicContext::new();
    context
        .fresh_categorical_conditions(2, &assignments, &bits_of(&probabilities), sums_to_one(&probabilities))
        .expect("valid distribution");
    let second = context
        .fresh_categorical_conditions(
            1,
            &[packed_bits(&[false]), packed_bits(&[true])],
            &bits_of(&[0.5, 0.5]),
            sums_to_one(&[0.5, 0.5]),
        )
        .expect("valid distribution");
    assert_eq!(second, vec![3]);
    assert_eq!(context.categorical_distributions.len(), 2);
    assert_eq!(context.categorical_distributions[1].conditions, vec![3]);
}

#[test]
fn categorical_distributions_are_validated() {
    let (assignments, probabilities) = two_bit_distribution();
    let mut context = SymbolicContext::new();
    let message = |result: Result<Vec<i32>>| result.expect_err("invalid").to_string();
    let mut register = |nbits: usize, rows: &[Vec<u64>], weights: &[f64]| {
        context.fresh_categorical_conditions(nbits, rows, &bits_of(weights), sums_to_one(weights))
    };

    assert_eq!(
        message(register(2, &[], &[])),
        "categorical symbolic distribution needs at least one assignment"
    );
    assert_eq!(
        message(register(0, &assignments, &probabilities)),
        "invalid categorical symbolic distribution"
    );
    assert_eq!(
        message(register(2, &assignments, &[1.0])),
        "invalid categorical symbolic distribution"
    );
    assert_eq!(
        message(register(2, &[packed_bits(&[false, false]), vec![0, 0]], &[0.5, 0.5])),
        "categorical assignment length mismatch"
    );
    assert_eq!(
        message(register(2, &assignments, &[0.7, 0.1, 0.1, 0.2])),
        "categorical symbolic distribution probabilities must sum to 1"
    );
    assert_eq!(
        message(register(2, &assignments, &[0.7, 0.1, 0.1, 1.5])),
        "probability must be between 0 and 1"
    );
    assert!(context.categorical_distributions.is_empty());
}

#[test]
fn equal_functions_of_the_symbols_have_one_form() {
    let direct = SymbolicBool::new(true, vec![7, 3]);
    let built = xor_bool(
        &xor_bool(&symbolic_bool(3), &SymbolicBool::from(true)),
        &SymbolicBool::new(false, vec![5, 7, 5]),
    );
    assert_eq!(direct, built);
    assert_eq!(SymbolicBoolEvaluationPlan::new(&direct), SymbolicBoolEvaluationPlan::new(&built));
}

#[test]
fn categorical_symbols_know_their_distribution() {
    let (assignments, probabilities) = two_bit_distribution();
    let mut context = SymbolicContext::new();
    for _ in 0..2 {
        context
            .fresh_categorical_conditions(
                2,
                &assignments,
                &bits_of(&probabilities),
                sums_to_one(&probabilities),
            )
            .expect("valid distribution");
    }
    let mut groups: Vec<(i32, usize)> =
        context.condition_to_categorical.iter().map(|(&c, &g)| (c, g)).collect();
    groups.sort_unstable();
    assert_eq!(groups, vec![(1, 0), (2, 0), (3, 1), (4, 1)]);
}

#[test]
fn a_refused_draw_needs_no_room() {
    let mut context = SymbolicContext::with_next_condition(i32::MAX);
    assert!(context.fresh_bernoulli_condition(1.5f64.to_bits()).is_err());
    assert!(context
        .fresh_categorical_conditions(1, &[vec![0], vec![1]], &[0.5f64.to_bits()], true)
        .is_err());
    assert_eq!(context.next_condition, i32::MAX);
}
