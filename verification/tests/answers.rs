use drill_core::answer::{AnswerNode, MAX_ANSWER_AST_SIZE};
use drill_core::grade::grade_answer;
use drill_core::model::{AnswerSchema, GradeResult, GradeStatus, GradeWarning};
use drill_core::normalize::normalize_answer;

fn grade_answer_with_schema(
    expected: &AnswerNode,
    actual: &AnswerNode,
    answer_schema: Option<&AnswerSchema>,
) -> GradeResult {
    drill_core::grade::grade_answer_with_schema(expected, actual, answer_schema)
        .expect("test answer schema must be valid")
}

#[test]
fn nan_error_is_exact_raw_text_and_never_grades_correct() {
    let raw = AnswerNode::NanError("3.1.4.5".to_owned());
    assert_eq!(normalize_answer(&raw), raw);
    assert!(raw.is_within_size_limit());
    assert!(AnswerNode::NanError("123456789012345678".to_owned()).is_within_size_limit());
    assert!(!AnswerNode::NanError("1234567890123456789".to_owned()).is_within_size_limit());
    for (expected, actual) in [
        (AnswerNode::Integer(4), raw.clone()),
        (raw.clone(), AnswerNode::Integer(4)),
        (raw.clone(), raw.clone()),
    ] {
        let result = grade_answer(&expected, &actual);
        assert_eq!(result.status(), GradeStatus::Incorrect);
        assert!(!result.is_correct());
        assert!(result.warnings().is_empty());
    }
}

#[test]
fn nested_nan_errors_never_compare_equal_or_emit_warnings() {
    let expected = AnswerNode::Tuple(vec![AnswerNode::NanError("1e+".to_owned())]);
    let actual = expected.clone();
    let result = grade_answer(&expected, &actual);
    assert_eq!(result.status(), GradeStatus::Incorrect);
    assert!(!result.is_correct());
    assert!(result.warnings().is_empty());
}

#[test]
fn grading_compares_exact_numeric_ast_values_not_display_shapes() {
    let half = AnswerNode::Fraction {
        numerator: Box::new(AnswerNode::Integer(1)),
        denominator: Box::new(AnswerNode::Integer(2)),
    };
    let two_fourths = AnswerNode::Fraction {
        numerator: Box::new(AnswerNode::Integer(2)),
        denominator: Box::new(AnswerNode::Integer(4)),
    };
    let decimal_half = AnswerNode::ExactDecimal {
        coefficient: 5,
        scale: 1,
    };
    let reduced = grade_answer(&half, &two_fourths);
    assert!(reduced.is_correct());
    assert_eq!(reduced.warnings(), vec![GradeWarning::FractionNotReduced]);

    let alternate_exact_form = grade_answer(&half, &decimal_half);
    assert!(alternate_exact_form.is_correct());
    assert!(alternate_exact_form.warnings().is_empty());

    let decimal_integer = grade_answer(
        &AnswerNode::Integer(4),
        &AnswerNode::ExactDecimal {
            coefficient: 40,
            scale: 1,
        },
    );
    assert!(decimal_integer.is_correct());
    assert_eq!(
        decimal_integer.warnings(),
        vec![
            GradeWarning::RedundantDecimal,
            GradeWarning::IntegerFormRequired,
        ]
    );

    let mixed = AnswerNode::MixedFraction {
        whole: Box::new(AnswerNode::Integer(1)),
        numerator: Box::new(AnswerNode::Integer(1)),
        denominator: Box::new(AnswerNode::Integer(2)),
    };
    let three_halves = AnswerNode::Fraction {
        numerator: Box::new(AnswerNode::Integer(3)),
        denominator: Box::new(AnswerNode::Integer(2)),
    };
    assert!(grade_answer(&mixed, &three_halves).is_correct());

    let double_negative = AnswerNode::Negative(Box::new(AnswerNode::Negative(Box::new(
        AnswerNode::Integer(2),
    ))));
    let negative_warning = grade_answer(&AnswerNode::Integer(2), &double_negative);
    assert!(negative_warning.is_correct());
    assert_eq!(
        negative_warning.warnings(),
        vec![
            GradeWarning::RedundantNegative,
            GradeWarning::IntegerFormRequired,
        ]
    );

    let negative_fraction = AnswerNode::Fraction {
        numerator: Box::new(AnswerNode::Integer(-1)),
        denominator: Box::new(AnswerNode::Integer(2)),
    };
    let wrapped_negative_fraction = AnswerNode::Negative(Box::new(negative_fraction));
    let signed_fraction_warning = grade_answer(&half, &wrapped_negative_fraction);
    assert!(signed_fraction_warning.is_correct());
    assert_eq!(
        signed_fraction_warning.warnings(),
        vec![GradeWarning::RedundantNegative]
    );

    let multiple = AnswerNode::Negative(Box::new(AnswerNode::Negative(Box::new(two_fourths))));
    let multiple_warnings = grade_answer(&half, &multiple);
    assert!(multiple_warnings.is_correct());
    assert_eq!(
        multiple_warnings.warnings(),
        vec![
            GradeWarning::FractionNotReduced,
            GradeWarning::RedundantNegative,
        ]
    );

    let same_notation = grade_answer(&half, &half);
    assert!(same_notation.is_correct());
    assert!(same_notation.warnings().is_empty());

    let incorrect = grade_answer(&AnswerNode::Integer(3), &double_negative);
    assert!(!incorrect.is_correct());
    assert!(incorrect.warnings().is_empty());
}

#[test]
fn grading_handles_redundant_signs_solution_sets_and_exact_square_roots() {
    let two = AnswerNode::Integer(2);
    let plus_minus_two = AnswerNode::PlusMinus(Box::new(two.clone()));

    let double_negative =
        AnswerNode::Negative(Box::new(AnswerNode::Negative(Box::new(two.clone()))));
    let result = grade_answer(&two, &double_negative);
    assert!(result.is_correct());
    assert!(result.warnings().contains(&GradeWarning::RedundantNegative));

    let double_plus_minus =
        AnswerNode::PlusMinus(Box::new(AnswerNode::PlusMinus(Box::new(two.clone()))));
    let result = grade_answer(&plus_minus_two, &double_plus_minus);
    assert!(result.is_correct());
    assert_eq!(result.warnings(), vec![GradeWarning::RedundantPlusMinus]);

    let explicit_symmetric_roots =
        AnswerNode::Tuple(vec![AnswerNode::Integer(2), AnswerNode::Integer(-2)]);
    assert!(grade_answer(&plus_minus_two, &explicit_symmetric_roots).is_correct());
    assert!(grade_answer(&explicit_symmetric_roots, &plus_minus_two).is_correct());

    let explicit_offset_roots =
        AnswerNode::Tuple(vec![AnswerNode::Integer(-2), AnswerNode::Integer(6)]);
    let offset_plus_minus = AnswerNode::Binary {
        operator: drill_core::answer::AnswerBinaryOperator::Add,
        left: Box::new(AnswerNode::Integer(2)),
        right: Box::new(AnswerNode::PlusMinus(Box::new(AnswerNode::Integer(4)))),
    };
    let result = grade_answer(&explicit_offset_roots, &offset_plus_minus);
    assert!(result.is_correct());
    assert_eq!(result.warnings(), vec![GradeWarning::SolutionListRequired]);

    let duplicate_solution = AnswerNode::Tuple(vec![two.clone(), two.clone()]);
    let result = grade_answer(&two, &duplicate_solution);
    assert!(!result.is_correct());
    assert_eq!(result.warnings(), vec![GradeWarning::DuplicateSolution]);

    let sqrt_16 = AnswerNode::Root {
        radicand: Box::new(AnswerNode::Integer(16)),
        index: None,
    };
    let result = grade_answer(&AnswerNode::Integer(4), &sqrt_16);
    assert!(result.is_correct());
    assert!(result
        .warnings()
        .contains(&GradeWarning::IntegerFormRequired));
}

#[test]
fn normalization_never_saturates_i64_min_negation() {
    let value = AnswerNode::Negative(Box::new(AnswerNode::Integer(i64::MIN)));
    assert_eq!(normalize_answer(&value), value);
}

#[test]
fn rational_answer_schema_enforces_requested_fraction_representation() {
    let expected = AnswerNode::Fraction {
        numerator: Box::new(AnswerNode::Integer(3)),
        denominator: Box::new(AnswerNode::Integer(2)),
    };
    let schema = AnswerSchema::Rational {
        max_abs_numerator: 30,
        max_denominator: 30,
        require_reduced_fraction_form: true,
    };

    let unreduced = AnswerNode::Fraction {
        numerator: Box::new(AnswerNode::Integer(6)),
        denominator: Box::new(AnswerNode::Integer(4)),
    };
    let unreduced_result = grade_answer_with_schema(&expected, &unreduced, Some(&schema));
    assert!(unreduced_result.is_correct());
    assert_eq!(unreduced_result.status(), GradeStatus::Correct);
    assert!(unreduced_result
        .warnings()
        .contains(&GradeWarning::FractionNotReduced));

    let mixed = AnswerNode::MixedFraction {
        whole: Box::new(AnswerNode::Integer(1)),
        numerator: Box::new(AnswerNode::Integer(1)),
        denominator: Box::new(AnswerNode::Integer(2)),
    };
    let mixed_result = grade_answer_with_schema(&expected, &mixed, Some(&schema));
    assert!(mixed_result.is_correct());
    assert!(mixed_result
        .warnings()
        .contains(&GradeWarning::FractionFormRequired));

    let decimal = AnswerNode::ExactDecimal {
        coefficient: 15,
        scale: 1,
    };
    let decimal_result = grade_answer_with_schema(&expected, &decimal, Some(&schema));
    assert!(decimal_result.is_correct());
    assert!(decimal_result
        .warnings()
        .contains(&GradeWarning::FractionFormRequired));
}

#[test]
fn equivalent_noncanonical_forms_return_visible_warnings() {
    let integer_schema = AnswerSchema::Integer { min: -15, max: 15 };
    let integer_expected = AnswerNode::Integer(-1);
    let fraction_one = AnswerNode::Negative(Box::new(AnswerNode::Fraction {
        numerator: Box::new(AnswerNode::Integer(1)),
        denominator: Box::new(AnswerNode::Integer(1)),
    }));
    let fraction_one_result =
        grade_answer_with_schema(&integer_expected, &fraction_one, Some(&integer_schema));
    assert!(fraction_one_result.is_correct());
    assert!(fraction_one_result
        .warnings()
        .contains(&GradeWarning::IntegerFormRequired));

    let zero_root = AnswerNode::Root {
        radicand: Box::new(AnswerNode::Integer(0)),
        index: None,
    };
    let zero_root_result =
        grade_answer_with_schema(&AnswerNode::Integer(0), &zero_root, Some(&integer_schema));
    assert!(zero_root_result.is_correct());
    assert!(zero_root_result
        .warnings()
        .contains(&GradeWarning::IntegerFormRequired));

    let fraction_schema = AnswerSchema::Rational {
        max_abs_numerator: 20,
        max_denominator: 12,
        require_reduced_fraction_form: true,
    };
    let expected = AnswerNode::Fraction {
        numerator: Box::new(AnswerNode::Integer(11)),
        denominator: Box::new(AnswerNode::Integer(6)),
    };
    let nested = AnswerNode::Fraction {
        numerator: Box::new(AnswerNode::Fraction {
            numerator: Box::new(AnswerNode::Integer(11)),
            denominator: Box::new(AnswerNode::Integer(3)),
        }),
        denominator: Box::new(AnswerNode::Integer(2)),
    };
    let nested_result = grade_answer_with_schema(&expected, &nested, Some(&fraction_schema));
    assert!(nested_result.is_correct());
    assert!(nested_result
        .warnings()
        .contains(&GradeWarning::FractionFormRequired));
}

#[test]
fn partially_filled_structures_stay_within_the_combined_input_limit() {
    let answers = [
        AnswerNode::Fraction {
            numerator: Box::new(AnswerNode::Empty),
            denominator: Box::new(AnswerNode::Integer(2)),
        },
        AnswerNode::MixedFraction {
            whole: Box::new(AnswerNode::Integer(1)),
            numerator: Box::new(AnswerNode::Empty),
            denominator: Box::new(AnswerNode::Empty),
        },
        AnswerNode::Root {
            radicand: Box::new(AnswerNode::Empty),
            index: Some(Box::new(AnswerNode::Empty)),
        },
    ];

    for answer in answers {
        assert!(answer.size() <= MAX_ANSWER_AST_SIZE);
        assert!(answer.is_within_size_limit());
    }
}

#[test]
fn size_validation_and_extreme_decimal_normalization_are_bounded() {
    let extreme = AnswerNode::exact_decimal(0, u32::MAX);
    assert!(!extreme.is_within_size_limit());
    assert_eq!(normalize_answer(&extreme), AnswerNode::Integer(0));
}


#[test]
fn normalization_reduces_to_lowest_terms() {
    let half = AnswerNode::Fraction {
        numerator: Box::new(AnswerNode::Integer(2)),
        denominator: Box::new(AnswerNode::Integer(4)),
    };
    let expected = AnswerNode::Fraction {
        numerator: Box::new(AnswerNode::Integer(1)),
        denominator: Box::new(AnswerNode::Integer(2)),
    };
    assert_eq!(normalize_answer(&half), expected);
    assert_eq!(normalize_answer(&AnswerNode::exact_decimal(5, 1)), expected);
    assert_eq!(normalize_answer(&AnswerNode::exact_decimal(-250, 2)), AnswerNode::Fraction {
        numerator: Box::new(AnswerNode::Integer(-5)),
        denominator: Box::new(AnswerNode::Integer(2)),
    });
    assert_eq!(normalize_answer(&AnswerNode::exact_decimal(300, 2)), AnswerNode::Integer(3));
    let huge_scale = AnswerNode::exact_decimal(12_300, 100);
    assert_eq!(normalize_answer(&huge_scale), AnswerNode::exact_decimal(123, 98));
}
