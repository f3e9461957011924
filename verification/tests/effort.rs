use drill_core::answer::AnswerNode;
use drill_core::effort::{
    simultaneous_elimination_strategy_operations, simultaneous_equation_plan, substitution_candidate_operations,
    SimultaneousStrategy,
    arithmetic_expression_plan, big_num_operations, gcd_search_operations, integer_division_with_remainder_plan, linear_equation_plan,
    one_digit_addition_plan, one_digit_subtraction_plan, prime_factorization_model, quadratic_factoring_plan,
    quadratic_factoring_coefficients_plan, quadratic_formula_coefficients_plan,
    square_root_operations, signed_addition_operations,
    signed_addition_plan, signed_multiplication_operations, signed_subtraction_plan, two_digit_addition_plan,
    unsigned_division_operations, unsigned_subtraction_operations, Operation, OperationKind, OperationPlan,
};
use drill_core::model::{ArithmeticExpression, ArithmeticOperator, RationalCoefficient};

const ALL_KINDS: [OperationKind; 29] = [
    OperationKind::Identity,
    OperationKind::Count,
    OperationKind::Increment,
    OperationKind::Decrement,
    OperationKind::BasePlus,
    OperationKind::BaseMinus,
    OperationKind::BaseTimes,
    OperationKind::BaseDivide,
    OperationKind::BigNum,
    OperationKind::TimeTen,
    OperationKind::OverheadPf,
    OperationKind::OverheadGcd,
    OperationKind::OverheadLcm,
    OperationKind::OverheadNegative,
    OperationKind::OverheadCarryPlus,
    OperationKind::OverheadCarryMinus,
    OperationKind::OverheadCarryMult,
    OperationKind::Transposition,
    OperationKind::OverheadLinear,
    OperationKind::OverheadEqSystem,
    OperationKind::OverheadFactorPerfectSquare,
    OperationKind::OverheadFactorDifferenceOfSquares,
    OperationKind::OverheadFactorGeneral,
    OperationKind::OverheadQuadratic,
    OperationKind::BaseRoot,
    OperationKind::Compare,
    OperationKind::Reciprocal,
    OperationKind::BaseFractionCancel,
    OperationKind::FractionSelfDivision,
];

fn rational(numerator: i64, denominator: i64) -> RationalCoefficient {
    RationalCoefficient::new(numerator, denominator).unwrap()
}

fn plan(operations: Vec<Operation>) -> OperationPlan {
    OperationPlan::from_operations(operations)
}

fn count(plan: &OperationPlan, kind: OperationKind) -> f64 {
    plan.kind_count(kind) as f64
}

fn assert_only(plan: &OperationPlan, expected: &[(OperationKind, f64)]) {
    for kind in ALL_KINDS {
        let expected_value = expected
            .iter()
            .find(|(expected_kind, _)| *expected_kind == kind)
            .map(|(_, value)| *value)
            .unwrap_or(0.0);
        assert_eq!(count(plan, kind), expected_value, "unexpected count for {kind:?}");
    }
}

#[test]
fn lookup_table_is_bidirectional_for_subtraction_and_division() {
    assert_only(&plan(unsigned_subtraction_operations(13, 5)), &[(OperationKind::BaseMinus, 1.0)]);
    assert_only(&plan(unsigned_division_operations(56, 7)), &[(OperationKind::BaseDivide, 1.0)]);
    assert_only(&plan(unsigned_division_operations(72, 8)), &[(OperationKind::BaseDivide, 1.0)]);
}

#[test]
fn remainder_quotient_search_costs_three_table_probes() {
    assert_only(
        &plan(unsigned_division_operations(7, 3)),
        &[(OperationKind::BaseTimes, 3.0), (OperationKind::BaseMinus, 1.0), (OperationKind::Compare, 1.0)],
    );
}

#[test]
fn addition_reuses_lookup_and_only_increments_existing_next_column() {
    assert_only(
        &plan(signed_addition_operations(23, 48)),
        &[(OperationKind::BasePlus, 2.0), (OperationKind::Increment, 1.0), (OperationKind::OverheadCarryPlus, 1.0)],
    );
    assert_only(
        &plan(signed_addition_operations(97, 86)),
        &[
            (OperationKind::Identity, 1.0),
            (OperationKind::BasePlus, 2.0),
            (OperationKind::Increment, 1.0),
            (OperationKind::OverheadCarryPlus, 2.0),
        ],
    );
    assert_only(&plan(signed_addition_operations(23, 4)), &[(OperationKind::Identity, 1.0), (OperationKind::BasePlus, 1.0)]);
    assert_only(&plan(signed_addition_operations(99, 0)), &[(OperationKind::Identity, 2.0)]);
}

#[test]
fn borrow_and_multiplication_carry_do_not_create_phantom_additions() {
    assert_only(
        &plan(unsigned_subtraction_operations(42, 17)),
        &[(OperationKind::BaseMinus, 2.0), (OperationKind::Decrement, 1.0), (OperationKind::OverheadCarryMinus, 1.0)],
    );
    assert_only(
        &plan(signed_multiplication_operations(7, 8)),
        &[(OperationKind::Identity, 1.0), (OperationKind::BaseTimes, 1.0), (OperationKind::OverheadCarryMult, 1.0)],
    );
}

#[test]
fn fraction_cancellation_uses_its_structural_primitive() {
    let fraction_cancel = plan(vec![Operation::BaseFractionCancel]);
    assert_only(&fraction_cancel, &[(OperationKind::BaseFractionCancel, 1.0)]);

    let expression = ArithmeticExpression::Binary {
        operator: ArithmeticOperator::Multiply,
        left: Box::new(ArithmeticExpression::Rational { value: rational(5, 7) }),
        right: Box::new(ArithmeticExpression::Integer { value: 7 }),
    };
    let answer = AnswerNode::Integer(5);
    let result = arithmetic_expression_plan(&expression, &answer).unwrap();
    assert_eq!(count(&result, OperationKind::BaseFractionCancel), 1.0);
}

#[test]
fn gcd_uses_prime_factorization_not_full_divisor_enumeration() {
    let result = plan(gcd_search_operations(6, 12).unwrap());
    assert_eq!(count(&result, OperationKind::OverheadGcd), 1.0);
    assert_eq!(count(&result, OperationKind::OverheadPf), 2.0);
    assert!(count(&result, OperationKind::BaseTimes) < 10.0);
    assert!(count(&result, OperationKind::Compare) <= 3.0);
}

#[test]
fn factorization_on_multiplication_table_needs_only_pf_overhead() {
    let result = plan(prime_factorization_model(72).1);
    assert_only(&result, &[(OperationKind::OverheadPf, 1.0)]);

    let result = plan(prime_factorization_model(77).1);
    assert_eq!(count(&result, OperationKind::OverheadPf), 1.0);
    assert!(count(&result, OperationKind::BaseTimes) > 0.0 || count(&result, OperationKind::BaseDivide) > 0.0);
}

#[test]
fn fractions_reuse_shared_gcd_and_cancellation_models() {
    let expression = ArithmeticExpression::Binary {
        operator: ArithmeticOperator::Multiply,
        left: Box::new(ArithmeticExpression::Rational { value: rational(2, 3) }),
        right: Box::new(ArithmeticExpression::Rational { value: rational(3, 4) }),
    };
    let answer = AnswerNode::Fraction {
        numerator: Box::new(AnswerNode::Integer(1)),
        denominator: Box::new(AnswerNode::Integer(2)),
    };
    let result = arithmetic_expression_plan(&expression, &answer).unwrap();
    assert_eq!(count(&result, OperationKind::OverheadGcd), 1.0);
    assert_eq!(count(&result, OperationKind::OverheadPf), 2.0);
    assert!(count(&result, OperationKind::BaseTimes) < 10.0);
}

#[test]
fn exact_decimals_reuse_shared_integer_column_arithmetic() {
    let expression = ArithmeticExpression::Binary {
        operator: ArithmeticOperator::Add,
        left: Box::new(ArithmeticExpression::ExactDecimal { coefficient: 125, scale: 2 }),
        right: Box::new(ArithmeticExpression::ExactDecimal { coefficient: 7, scale: 1 }),
    };
    let answer = AnswerNode::ExactDecimal { coefficient: 195, scale: 2 };
    let result = arithmetic_expression_plan(&expression, &answer).unwrap();
    assert_eq!(count(&result, OperationKind::OverheadLcm), 0.0);
    assert_eq!(count(&result, OperationKind::Count), 1.0);
    assert_eq!(count(&result, OperationKind::BasePlus), 1.0);
}

#[test]
fn unit_prime_factorization_is_trivial_and_safe() {
    let (factors, operations) = prime_factorization_model(1);
    assert!(factors.is_empty());
    assert_only(&plan(operations), &[(OperationKind::OverheadPf, 1.0)]);
}

#[test]
fn extreme_rational_division_fails_without_panicking() {
    let extreme = RationalCoefficient::new(i64::MIN, 3).expect("valid extreme rational");
    let expression = ArithmeticExpression::Binary {
        operator: ArithmeticOperator::Divide,
        left: Box::new(ArithmeticExpression::Rational { value: extreme }),
        right: Box::new(ArithmeticExpression::Rational { value: extreme }),
    };
    assert_eq!(arithmetic_expression_plan(&expression, &AnswerNode::Integer(1)), None);
}

#[test]
fn time_ten_counts_itself_once_and_its_places_as_count() {
    let result = plan(vec![Operation::TimeTen { exponent: 3 }]);
    assert_eq!(count(&result, OperationKind::TimeTen), 1.0);
    assert_eq!(count(&result, OperationKind::Count), 3.0);
}

#[test]
fn one_digit_addition_plan_ends_with_the_answer() {
    let result = one_digit_addition_plan(8, 9).unwrap();
    assert_eq!(result.operations().last(), Some(&Operation::BigNum { magnitude: 17 }));
    assert_eq!(count(&result, OperationKind::BasePlus), 1.0);
    assert_eq!(one_digit_addition_plan(10, 1), None);
}

#[test]
fn one_digit_subtraction_plan_rejects_negative_results() {
    let result = one_digit_subtraction_plan(15, 7).unwrap();
    assert_eq!(result.operations().last(), Some(&Operation::BigNum { magnitude: 8 }));
    assert_eq!(one_digit_subtraction_plan(3, 7), None);
    assert_eq!(one_digit_subtraction_plan(19, 1), None);
}

#[test]
fn two_digit_addition_plan_requires_two_digits() {
    let result = two_digit_addition_plan(23, 48).unwrap();
    assert_eq!(result.operations().last(), Some(&Operation::BigNum { magnitude: 71 }));
    assert_eq!(count(&result, OperationKind::BasePlus), 2.0);
    assert_eq!(two_digit_addition_plan(9, 48), None);
}

#[test]
fn negative_operand_overhead_follows_structural_rewrite_rule() {
    assert_eq!(count(&signed_addition_plan(2, -3), OperationKind::OverheadNegative), 0.0);
    assert_eq!(count(&signed_addition_plan(5, -3), OperationKind::OverheadNegative), 0.0);
    assert_eq!(count(&signed_addition_plan(3, -3), OperationKind::OverheadNegative), 0.0);
    assert_eq!(count(&signed_addition_plan(-3, 2), OperationKind::OverheadNegative), 1.0);
    assert_eq!(count(&signed_addition_plan(-2, -3), OperationKind::OverheadNegative), 1.0);
    assert_eq!(count(&signed_addition_plan(0, -3), OperationKind::OverheadNegative), 1.0);
    assert_eq!(count(&signed_subtraction_plan(2, -3), OperationKind::OverheadNegative), 1.0);
    assert_eq!(count(&signed_subtraction_plan(-2, 3), OperationKind::OverheadNegative), 1.0);
    assert_eq!(count(&signed_subtraction_plan(5, 3), OperationKind::OverheadNegative), 0.0);
    assert_eq!(big_num_operations(&AnswerNode::Negative(Box::new(AnswerNode::exact_decimal(57, 2)))).len(), 1);
}

#[test]
fn composite_size_and_exact_big_num_sources_match_contract() {
    let fraction = AnswerNode::Fraction {
        numerator: Box::new(AnswerNode::Integer(12)),
        denominator: Box::new(AnswerNode::Integer(42)),
    };
    assert_eq!(fraction.size(), 5);
    assert_eq!(
        big_num_operations(&fraction),
        vec![Operation::BigNum { magnitude: 12 }, Operation::BigNum { magnitude: 42 }]
    );
    assert_eq!(big_num_operations(&AnswerNode::exact_decimal(57, 2)), vec![Operation::BigNum { magnitude: 57 }]);
    assert_eq!(
        big_num_operations(&AnswerNode::Negative(Box::new(AnswerNode::exact_decimal(57, 2)))),
        vec![Operation::BigNum { magnitude: 57 }]
    );
}

fn big_num_magnitudes(plan: &OperationPlan) -> Vec<u64> {
    plan.operations()
        .iter()
        .filter_map(|operation| match operation {
            Operation::BigNum { magnitude } => Some(*magnitude),
            _ => None,
        })
        .collect()
}

#[test]
fn operation_plan_counts_each_primitive_once() {
    let counted = OperationPlan::new(vec![Operation::BasePlus, Operation::Increment, Operation::OverheadCarryPlus]);
    assert_eq!(count(&counted, OperationKind::BasePlus), 1.0);
    assert_eq!(count(&counted, OperationKind::Increment), 1.0);
    assert_eq!(count(&counted, OperationKind::OverheadCarryPlus), 1.0);
    let generated = one_digit_addition_plan(8, 9).expect("valid one-digit addition");
    assert_eq!(count(&generated, OperationKind::BasePlus), 1.0);
    assert_eq!(count(&generated, OperationKind::Increment), 0.0);
    assert_eq!(count(&generated, OperationKind::Identity), 1.0);
    assert_eq!(count(&generated, OperationKind::OverheadCarryPlus), 1.0);
    assert_eq!(count(&generated, OperationKind::BigNum), 1.0);
    assert_eq!(big_num_magnitudes(&generated), vec![17]);
}

#[test]
fn linear_equation_effort_follows_transpose_then_divide_model() {
    let q = |value: i64| RationalCoefficient::new(value, 1).unwrap();
    let answer = AnswerNode::Integer(2);
    let result = linear_equation_plan(q(3), q(3), q(1), q(7), &answer).expect("valid linear equation");
    assert_eq!(count(&result, OperationKind::OverheadLinear), 1.0);
    assert_eq!(count(&result, OperationKind::Transposition), 2.0);
    assert_eq!(count(&result, OperationKind::BaseMinus), 2.0);
    assert_eq!(count(&result, OperationKind::BaseDivide), 1.0);
    assert_eq!(big_num_magnitudes(&result), vec![2]);
}

#[test]
fn division_with_remainder_plan_rejects_zero_divisor() {
    let answer = AnswerNode::Tuple(vec![AnswerNode::Integer(2), AnswerNode::Integer(1)]);
    assert_eq!(integer_division_with_remainder_plan(7, 0, &answer), None);
    let result = integer_division_with_remainder_plan(7, 3, &answer).unwrap();
    assert_eq!(count(&result, OperationKind::BigNum), 2.0);
    assert_eq!(count(&result, OperationKind::Compare), 1.0);
}

#[test]
fn decimal_multiplication_moves_the_point_by_the_sum_of_places() {
    let expression = ArithmeticExpression::Binary {
        operator: ArithmeticOperator::Multiply,
        left: Box::new(ArithmeticExpression::ExactDecimal { coefficient: 12, scale: 1 }),
        right: Box::new(ArithmeticExpression::ExactDecimal { coefficient: 3, scale: 1 }),
    };
    let answer = AnswerNode::ExactDecimal { coefficient: 36, scale: 2 };
    let result = arithmetic_expression_plan(&expression, &answer).unwrap();
    assert_eq!(count(&result, OperationKind::TimeTen), 1.0);
    assert_eq!(count(&result, OperationKind::Count), 2.0);
}

#[test]
fn decimal_and_fraction_leaves_do_not_mix() {
    let expression = ArithmeticExpression::Binary {
        operator: ArithmeticOperator::Add,
        left: Box::new(ArithmeticExpression::ExactDecimal { coefficient: 5, scale: 1 }),
        right: Box::new(ArithmeticExpression::Rational { value: rational(1, 3) }),
    };
    assert_eq!(arithmetic_expression_plan(&expression, &AnswerNode::Integer(1)), None);
}

#[test]
fn integer_division_that_divides_exactly_is_a_long_division() {
    let expression = ArithmeticExpression::Binary {
        operator: ArithmeticOperator::Divide,
        left: Box::new(ArithmeticExpression::Integer { value: 56 }),
        right: Box::new(ArithmeticExpression::Integer { value: 7 }),
    };
    let result = arithmetic_expression_plan(&expression, &AnswerNode::Integer(8)).unwrap();
    assert_eq!(count(&result, OperationKind::BaseDivide), 1.0);
    assert_eq!(count(&result, OperationKind::Reciprocal), 0.0);
    let uneven = ArithmeticExpression::Binary {
        operator: ArithmeticOperator::Divide,
        left: Box::new(ArithmeticExpression::Integer { value: 7 }),
        right: Box::new(ArithmeticExpression::Integer { value: 2 }),
    };
    let answer = AnswerNode::Fraction {
        numerator: Box::new(AnswerNode::Integer(7)),
        denominator: Box::new(AnswerNode::Integer(2)),
    };
    let result = arithmetic_expression_plan(&uneven, &answer).unwrap();
    assert_eq!(count(&result, OperationKind::Reciprocal), 1.0);
}

fn kind_counts(plan: &OperationPlan) -> Vec<u128> {
    ALL_KINDS.iter().map(|kind| plan.kind_count(*kind)).collect()
}

#[test]
fn square_root_simplification_tests_prime_squares() {
    assert_only(&plan(square_root_operations(49)), &[(OperationKind::BaseRoot, 1.0)]);
    let eight = plan(square_root_operations(8));
    assert_eq!(count(&eight, OperationKind::OverheadFactorPerfectSquare), 1.0);
    assert_eq!(count(&eight, OperationKind::Count), 1.0);
    let forty_five = plan(square_root_operations(45));
    assert_eq!(count(&forty_five, OperationKind::OverheadFactorPerfectSquare), 1.0);
    assert!(count(&forty_five, OperationKind::Count) >= 2.0);
    let seventy_two = plan(square_root_operations(72));
    assert!(count(&seventy_two, OperationKind::BaseTimes) >= 1.0);
}

#[test]
fn quadratic_factoring_uses_pf_then_unique_factor_pairs() {
    let answer_20 = AnswerNode::Tuple(vec![AnswerNode::Integer(4), AnswerNode::Integer(5)]);
    let answer_21 = AnswerNode::Tuple(vec![AnswerNode::Integer(3), AnswerNode::Integer(7)]);
    let twenty = quadratic_factoring_plan(-9, 20, &answer_20).expect("factorable quadratic");
    let twenty_one = quadratic_factoring_plan(-10, 21, &answer_21).expect("factorable quadratic");
    assert_eq!(count(&twenty, OperationKind::OverheadPf), 1.0);
    assert_eq!(count(&twenty_one, OperationKind::OverheadPf), 1.0);
    assert_ne!(kind_counts(&twenty), kind_counts(&twenty_one));
}

#[test]
fn quadratic_special_forms_do_not_run_general_factor_search() {
    let difference = quadratic_factoring_plan(
        0,
        -81,
        &AnswerNode::Tuple(vec![AnswerNode::Integer(-9), AnswerNode::Integer(9)]),
    )
    .expect("difference of squares");
    assert_eq!(count(&difference, OperationKind::OverheadFactorDifferenceOfSquares), 1.0);
    assert_eq!(count(&difference, OperationKind::OverheadFactorGeneral), 0.0);
    assert_eq!(count(&difference, OperationKind::BaseRoot), 1.0);
}

#[test]
fn perfect_square_trinomial_takes_one_root() {
    let answer = AnswerNode::Integer(-3);
    let result = quadratic_factoring_plan(6, 9, &answer).expect("perfect square");
    assert_eq!(count(&result, OperationKind::OverheadFactorPerfectSquare), 1.0);
    assert_eq!(count(&result, OperationKind::BaseRoot), 1.0);
    assert_eq!(count(&result, OperationKind::Transposition), 1.0);
    assert_eq!(count(&result, OperationKind::OverheadFactorGeneral), 0.0);
}

#[test]
fn quadratic_without_integer_factor_pair_has_no_factoring_plan() {
    let answer = AnswerNode::Integer(0);
    assert_eq!(quadratic_factoring_plan(1, 1, &answer), None);
    let zero_root = quadratic_factoring_plan(5, 0, &answer).expect("common factor x");
    assert_eq!(count(&zero_root, OperationKind::OverheadFactorGeneral), 1.0);
    assert_eq!(count(&zero_root, OperationKind::Identity), 1.0);
    assert_eq!(count(&zero_root, OperationKind::Transposition), 1.0);
}

#[test]
fn twenty_has_six_divisors_to_count() {
    let answer = AnswerNode::Tuple(vec![AnswerNode::Integer(4), AnswerNode::Integer(5)]);
    let twenty = quadratic_factoring_plan(-9, 20, &answer).unwrap();
    assert!(twenty.operations().contains(&Operation::Count { amount: 6 }));
}

fn whole(value: i64) -> RationalCoefficient {
    RationalCoefficient::new(value, 1).unwrap()
}

#[test]
fn quadratic_formula_simplifies_the_root_and_divides_out_the_common_factor() {
    let answer = AnswerNode::PlusMinus(Box::new(AnswerNode::Root {
        radicand: Box::new(AnswerNode::Integer(2)),
        index: None,
    }));
    let result = quadratic_formula_coefficients_plan(whole(1), whole(0), whole(-2), &answer).unwrap();
    assert_eq!(count(&result, OperationKind::OverheadQuadratic), 1.0);
    assert_eq!(count(&result, OperationKind::Reciprocal), 1.0);
    assert_eq!(count(&result, OperationKind::OverheadFactorPerfectSquare), 1.0);
    assert_eq!(count(&result, OperationKind::OverheadGcd), 1.0);
    assert_eq!(result.operations().first(), Some(&Operation::OverheadQuadratic));
}

#[test]
fn quadratic_formula_needs_a_positive_discriminant_and_a_quadratic_term() {
    let answer = AnswerNode::Integer(0);
    assert_eq!(quadratic_formula_coefficients_plan(whole(1), whole(0), whole(1), &answer), None);
    assert_eq!(quadratic_formula_coefficients_plan(whole(1), whole(2), whole(1), &answer), None);
    assert_eq!(quadratic_formula_coefficients_plan(whole(0), whole(2), whole(1), &answer), None);
}

#[test]
fn quadratic_formula_clears_fraction_coefficients_first() {
    let answer = AnswerNode::Integer(0);
    let halves = quadratic_formula_coefficients_plan(rational(1, 2), whole(0), whole(-1), &answer).unwrap();
    assert_eq!(count(&halves, OperationKind::OverheadLcm), 2.0);
}

#[test]
fn factoring_divides_through_by_the_leading_coefficient() {
    let answer = AnswerNode::Tuple(vec![AnswerNode::Integer(2), AnswerNode::Integer(3)]);
    let result = quadratic_factoring_coefficients_plan(whole(2), whole(-10), whole(12), &answer).unwrap();
    assert_eq!(count(&result, OperationKind::BaseDivide), 3.0);
    assert_eq!(count(&result, OperationKind::OverheadFactorGeneral), 1.0);
    assert_eq!(quadratic_factoring_coefficients_plan(whole(2), whole(3), whole(1), &answer), None);
    let monic = quadratic_factoring_coefficients_plan(whole(1), whole(-5), whole(6), &answer).unwrap();
    assert_eq!(
        monic.operations(),
        quadratic_factoring_plan(-5, 6, &answer).unwrap().operations()
    );
}

fn pair(x: i64, y: i64) -> AnswerNode {
    AnswerNode::Tuple(vec![AnswerNode::Integer(x), AnswerNode::Integer(y)])
}

#[test]
fn simultaneous_solve_method_selects_a_method_specific_operation_plan() {
    // x - 2y = 1 and 3x + 4y = 13, solved by (3, 1).
    let answer = pair(3, 1);
    let elimination = simultaneous_equation_plan(
        1,
        -2,
        1,
        3,
        4,
        13,
        &answer,
        SimultaneousStrategy::Elimination { eliminate_x: true, x_prefers_first: true, y_prefers_first: true },
    )
    .expect("system supports elimination");
    let substitution = simultaneous_equation_plan(
        1,
        -2,
        1,
        3,
        4,
        13,
        &answer,
        SimultaneousStrategy::Substitution { isolate_in_first: true, isolate_x: true },
    )
    .expect("isolated first equation supports substitution");
    assert_ne!(elimination.operations(), substitution.operations());
    assert_eq!(count(&elimination, OperationKind::OverheadEqSystem), 1.0);
    assert_eq!(count(&substitution, OperationKind::OverheadEqSystem), 1.0);
    assert_eq!(count(&elimination, OperationKind::BigNum), 2.0);
}

#[test]
fn simultaneous_plan_needs_the_answer_to_solve_the_system() {
    let strategy = SimultaneousStrategy::Substitution { isolate_in_first: true, isolate_x: true };
    assert_eq!(simultaneous_equation_plan(1, -2, 1, 3, 4, 13, &pair(2, 1), strategy), None);
    assert_eq!(simultaneous_equation_plan(1, 1, 2, 2, 2, 4, &pair(1, 1), strategy), None);
    assert_eq!(simultaneous_equation_plan(1, -2, 1, 3, 4, 13, &AnswerNode::Integer(3), strategy), None);
}

#[test]
fn elimination_scales_rows_to_a_common_coefficient() {
    // 2x + 3y = 8 and 3x + 2y = 7, solved by (1, 2): eliminating x scales by 3 and 2.
    let ops = simultaneous_elimination_strategy_operations(2, 3, 8, 3, 2, 7, true, 1, 2, true).unwrap();
    let result = plan(ops);
    assert_eq!(count(&result, OperationKind::OverheadLcm), 1.0);
    assert_eq!(count(&result, OperationKind::OverheadEqSystem), 1.0);
    assert_eq!(simultaneous_elimination_strategy_operations(0, 3, 8, 3, 2, 7, true, 1, 2, true), None);
}

#[test]
fn substitution_needs_an_isolatable_unknown() {
    // 2x + 3y = 8 cannot isolate x over the integers; x + 3y = 7 can.
    assert_eq!(substitution_candidate_operations((2, 3, 8), (3, 2, 7), true, 1, 2), None);
    assert!(substitution_candidate_operations((1, 3, 7), (3, 2, 7), true, 1, 2).is_some());
}
