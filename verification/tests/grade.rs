use drill_core::answer::{AnswerBinaryOperator, AnswerNode};
use drill_core::grade::{grade_answer, GradeError};
use drill_core::model::{AnswerSchema, GradeResult, GradeStatus, GradeWarning};

fn grade_answer_with_schema(
    expected: &AnswerNode,
    actual: &AnswerNode,
    answer_schema: Option<&AnswerSchema>,
) -> GradeResult {
    drill_core::grade::grade_answer_with_schema(expected, actual, answer_schema)
        .expect("test answer schema must be valid")
}

fn integer(value: i64) -> AnswerNode {
    AnswerNode::Integer(value)
}

fn frac(numerator: AnswerNode, denominator: AnswerNode) -> AnswerNode {
    AnswerNode::Fraction { numerator: Box::new(numerator), denominator: Box::new(denominator) }
}

#[test]
fn grading_rejects_invalid_schema_contracts_before_comparison() {
    let expected = AnswerNode::Integer(2);
    assert_eq!(
        drill_core::grade::grade_answer_with_schema(
            &expected,
            &expected,
            Some(&AnswerSchema::Integer { min: 3, max: 1 }),
        ),
        Err(GradeError::InvalidAnswerSchema)
    );
    assert_eq!(
        drill_core::grade::grade_answer_with_schema(
            &expected,
            &expected,
            Some(&AnswerSchema::Integer { min: 3, max: 10 }),
        ),
        Err(GradeError::ExpectedAnswerOutsideSchema)
    );
}

#[test]
fn ordered_pair_schema_preserves_coordinate_order_and_allows_equal_coordinates() {
    let expected = AnswerNode::Tuple(vec![AnswerNode::Integer(2), AnswerNode::Integer(-3)]);
    let correct = grade_answer_with_schema(&expected, &expected, Some(&AnswerSchema::OrderedPair));
    assert_eq!(correct.status(), GradeStatus::Correct);

    let swapped = AnswerNode::Tuple(vec![AnswerNode::Integer(-3), AnswerNode::Integer(2)]);
    let wrong = grade_answer_with_schema(&expected, &swapped, Some(&AnswerSchema::OrderedPair));
    assert_eq!(wrong.status(), GradeStatus::Incorrect);

    let equal_coordinates = AnswerNode::Tuple(vec![AnswerNode::Integer(2), AnswerNode::Integer(2)]);
    let equal_result = grade_answer_with_schema(
        &equal_coordinates,
        &equal_coordinates,
        Some(&AnswerSchema::OrderedPair),
    );
    assert_eq!(equal_result.status(), GradeStatus::Correct);
    assert!(!equal_result.warnings().contains(&GradeWarning::DuplicateSolution));
}

#[test]
fn ordered_tuple_schema_preserves_full_order_and_length() {
    let expected = AnswerNode::Tuple(vec![
        AnswerNode::Integer(1),
        AnswerNode::Integer(2),
        AnswerNode::Integer(3),
        AnswerNode::Integer(4),
    ]);
    let schema = AnswerSchema::OrderedTuple { length: 4 };
    assert!(grade_answer_with_schema(&expected, &expected, Some(&schema)).is_correct());
    let swapped = AnswerNode::Tuple(vec![
        AnswerNode::Integer(2),
        AnswerNode::Integer(1),
        AnswerNode::Integer(3),
        AnswerNode::Integer(4),
    ]);
    assert!(!grade_answer_with_schema(&expected, &swapped, Some(&schema)).is_correct());
    let short = AnswerNode::Tuple(vec![AnswerNode::Integer(1), AnswerNode::Integer(2)]);
    assert!(!grade_answer_with_schema(&expected, &short, Some(&schema)).is_correct());
}

#[test]
fn embedded_plus_minus_expands_to_exact_solution_set() {
    let expected = AnswerNode::Fraction {
        numerator: Box::new(AnswerNode::Binary {
            operator: AnswerBinaryOperator::Add,
            left: Box::new(AnswerNode::Integer(2)),
            right: Box::new(AnswerNode::PlusMinus(Box::new(AnswerNode::Integer(4)))),
        }),
        denominator: Box::new(AnswerNode::Integer(3)),
    };
    let actual = AnswerNode::Tuple(vec![
        AnswerNode::Fraction {
            numerator: Box::new(AnswerNode::Integer(-2)),
            denominator: Box::new(AnswerNode::Integer(3)),
        },
        AnswerNode::Integer(2),
    ]);
    assert!(grade_answer(&expected, &actual).is_correct());
    assert!(grade_answer(&expected, &expected).is_correct());
}

#[test]
fn embedded_plus_minus_preserves_exact_radical_semantics() {
    let root_five = AnswerNode::Root { radicand: Box::new(AnswerNode::Integer(5)), index: None };
    let expected = AnswerNode::Fraction {
        numerator: Box::new(AnswerNode::Binary {
            operator: AnswerBinaryOperator::Add,
            left: Box::new(AnswerNode::Integer(1)),
            right: Box::new(AnswerNode::PlusMinus(Box::new(root_five.clone()))),
        }),
        denominator: Box::new(AnswerNode::Integer(2)),
    };
    let minus = AnswerNode::Fraction {
        numerator: Box::new(AnswerNode::Binary {
            operator: AnswerBinaryOperator::Subtract,
            left: Box::new(AnswerNode::Integer(1)),
            right: Box::new(root_five.clone()),
        }),
        denominator: Box::new(AnswerNode::Integer(2)),
    };
    let plus = AnswerNode::Fraction {
        numerator: Box::new(AnswerNode::Binary {
            operator: AnswerBinaryOperator::Add,
            left: Box::new(AnswerNode::Integer(1)),
            right: Box::new(root_five),
        }),
        denominator: Box::new(AnswerNode::Integer(2)),
    };
    assert!(grade_answer(&expected, &AnswerNode::Tuple(vec![minus, plus])).is_correct());
}

#[test]
fn mixed_fraction_is_preferred_but_improper_equivalent_stays_mathematically_correct() {
    let expected = AnswerNode::MixedFraction {
        whole: Box::new(AnswerNode::Integer(1)),
        numerator: Box::new(AnswerNode::Integer(1)),
        denominator: Box::new(AnswerNode::Integer(2)),
    };
    let actual = AnswerNode::Fraction {
        numerator: Box::new(AnswerNode::Integer(3)),
        denominator: Box::new(AnswerNode::Integer(2)),
    };
    let schema = AnswerSchema::Rational {
        max_abs_numerator: 10,
        max_denominator: 10,
        require_reduced_fraction_form: true,
    };
    let result = grade_answer_with_schema(&expected, &actual, Some(&schema));
    assert!(result.is_correct());
    assert!(result.warnings().contains(&GradeWarning::MixedFractionFormRequired));
    assert!(!result.warnings().contains(&GradeWarning::FractionFormRequired));
}

#[test]
fn grading_an_answer_against_itself_is_correct() {
    let answers = [
        integer(7),
        frac(integer(3), integer(4)),
        AnswerNode::Negative(Box::new(integer(5))),
        AnswerNode::exact_decimal(125, 2),
        AnswerNode::Tuple(vec![integer(1), integer(-1)]),
    ];
    for answer in answers {
        assert_eq!(grade_answer(&answer, &answer).status(), GradeStatus::Correct);
    }
}

#[test]
fn empty_answer_is_unanswered_and_error_nodes_are_incorrect() {
    assert_eq!(grade_answer(&integer(3), &AnswerNode::Empty).status(), GradeStatus::Unanswered);
    let nan = AnswerNode::NanError("1/".to_owned());
    assert_eq!(grade_answer(&nan, &nan).status(), GradeStatus::Incorrect);
    assert_eq!(grade_answer(&integer(3), &nan).status(), GradeStatus::Incorrect);
}

#[test]
fn unreduced_fraction_is_correct_with_a_warning() {
    let result = grade_answer(&frac(integer(1), integer(2)), &frac(integer(2), integer(4)));
    assert!(result.is_correct());
    assert_eq!(result.warnings(), &[GradeWarning::FractionNotReduced]);
    assert_eq!(result.expected(), &frac(integer(1), integer(2)));
    assert_eq!(result.actual(), &frac(integer(1), integer(2)));
}

#[test]
fn redundant_decimal_is_reported() {
    let result = grade_answer(&integer(3), &AnswerNode::exact_decimal(30, 1));
    assert!(result.is_correct());
    assert!(result.warnings().contains(&GradeWarning::RedundantDecimal));
    assert!(result.warnings().contains(&GradeWarning::IntegerFormRequired));
}

#[test]
fn schema_requiring_reduced_fraction_reports_other_forms() {
    let schema = AnswerSchema::Rational {
        max_abs_numerator: 10,
        max_denominator: 10,
        require_reduced_fraction_form: true,
    };
    let result = grade_answer_with_schema(&frac(integer(1), integer(2)), &AnswerNode::exact_decimal(5, 1), Some(&schema));
    assert!(result.is_correct());
    assert_eq!(result.warnings(), &[GradeWarning::FractionFormRequired]);
}

#[test]
fn oversized_trees_grade_as_size_limit_errors() {
    let mut deep = integer(1);
    for _ in 0..40 {
        deep = AnswerNode::Negative(Box::new(deep));
    }
    let result = grade_answer(&integer(1), &deep);
    assert_eq!(result.status(), GradeStatus::Incorrect);
    assert_eq!(result.actual(), &AnswerNode::NanError("answer_ast_size_limit".to_owned()));
    assert_eq!(
        drill_core::grade::grade_answer_with_schema(&integer(1), &deep, None),
        Err(GradeError::AnswerAstSizeLimit)
    );
    assert_eq!(GradeError::AnswerAstSizeLimit.code(), "answer_ast_size_limit");
    assert_eq!(GradeError::InvalidAnswerSchema.code(), "invalid_answer_schema");
    assert_eq!(GradeError::ExpectedAnswerOutsideSchema.code(), "expected_answer_outside_schema");
}

#[test]
fn swapped_solution_lists_grade_equal() {
    let expected = AnswerNode::Tuple(vec![integer(-2), integer(3)]);
    let actual = AnswerNode::Tuple(vec![integer(3), integer(-2)]);
    let result = grade_answer(&expected, &actual);
    assert!(result.is_correct());
    let wrong = AnswerNode::Tuple(vec![integer(3), integer(2)]);
    assert!(!grade_answer(&expected, &wrong).is_correct());
}
