use drill_core::answer::{AnswerBinaryOperator, AnswerNode, MAX_ANSWER_AST_SIZE};
use drill_core::error::EditorError;
use drill_core::grade::grade_answer;
use drill_core::mathlive_input::{parse_mathlive_answer, MAX_MATHLIVE_LATEX_BYTES};
use drill_core::model::{AnswerInputInterface, EditorStructure, GradeWarning};

fn structured() -> AnswerInputInterface {
    AnswerInputInterface::StructuredMath {
        allowed_structures: vec![
            EditorStructure::Fraction,
            EditorStructure::MixedFraction,
            EditorStructure::Decimal,
            EditorStructure::Root,
            EditorStructure::Negative,
            EditorStructure::PlusMinus,
            EditorStructure::Tuple,
            EditorStructure::Arithmetic,
        ],
    }
}

#[test]
fn rejects_structurally_invalid_input_interface_before_parsing() {
    let invalid = AnswerInputInterface::DigitGrid { min_digit: 4, max_digit: 1, cell_count: 0 };
    assert_eq!(parse_mathlive_answer("1", &invalid), Err(EditorError::InputInterfaceViolation));
}

#[test]
fn parses_representative_mathlive_values() {
    let interface = structured();
    let cases = [
        ("12", AnswerNode::Integer(12)),
        ("-12", AnswerNode::Negative(Box::new(AnswerNode::Integer(12)))),
        ("1.25", AnswerNode::exact_decimal(125, 2)),
        (
            "\\frac{3}{4}",
            AnswerNode::Fraction {
                numerator: Box::new(AnswerNode::Integer(3)),
                denominator: Box::new(AnswerNode::Integer(4)),
            },
        ),
        (
            "\\frac72",
            AnswerNode::Fraction {
                numerator: Box::new(AnswerNode::Integer(7)),
                denominator: Box::new(AnswerNode::Integer(2)),
            },
        ),
        (
            "\\frac{11}{1}",
            AnswerNode::Fraction {
                numerator: Box::new(AnswerNode::Integer(11)),
                denominator: Box::new(AnswerNode::Integer(1)),
            },
        ),
        ("\\sqrt2", AnswerNode::Root { radicand: Box::new(AnswerNode::Integer(2)), index: None }),
        (
            "1\\frac{1}{2}",
            AnswerNode::MixedFraction {
                whole: Box::new(AnswerNode::Integer(1)),
                numerator: Box::new(AnswerNode::Integer(1)),
                denominator: Box::new(AnswerNode::Integer(2)),
            },
        ),
        (
            "\\sqrt{\\frac{1}{2}}",
            AnswerNode::Root {
                radicand: Box::new(AnswerNode::Fraction {
                    numerator: Box::new(AnswerNode::Integer(1)),
                    denominator: Box::new(AnswerNode::Integer(2)),
                }),
                index: None,
            },
        ),
        (
            "\\pm\\sqrt{2}",
            AnswerNode::PlusMinus(Box::new(AnswerNode::Root {
                radicand: Box::new(AnswerNode::Integer(2)),
                index: None,
            })),
        ),
        ("1,2", AnswerNode::Tuple(vec![AnswerNode::Integer(1), AnswerNode::Integer(2)])),
    ];

    for (latex, expected) in cases {
        assert_eq!(parse_mathlive_answer(latex, &interface).unwrap(), expected);
    }
}

#[test]
fn distinguishes_prefix_negative_from_infix_subtraction_unambiguously() {
    let interface = structured();
    let cases = [
        ("-3", AnswerNode::Negative(Box::new(AnswerNode::Integer(3)))),
        (
            "5-3",
            AnswerNode::Binary {
                operator: AnswerBinaryOperator::Subtract,
                left: Box::new(AnswerNode::Integer(5)),
                right: Box::new(AnswerNode::Integer(3)),
            },
        ),
        (
            "5--3",
            AnswerNode::Binary {
                operator: AnswerBinaryOperator::Subtract,
                left: Box::new(AnswerNode::Integer(5)),
                right: Box::new(AnswerNode::Negative(Box::new(AnswerNode::Integer(3)))),
            },
        ),
        (
            "-3-2",
            AnswerNode::Binary {
                operator: AnswerBinaryOperator::Subtract,
                left: Box::new(AnswerNode::Negative(Box::new(AnswerNode::Integer(3)))),
                right: Box::new(AnswerNode::Integer(2)),
            },
        ),
        (
            "3+-2",
            AnswerNode::Binary {
                operator: AnswerBinaryOperator::Add,
                left: Box::new(AnswerNode::Integer(3)),
                right: Box::new(AnswerNode::Negative(Box::new(AnswerNode::Integer(2)))),
            },
        ),
    ];
    for (latex, expected) in cases {
        assert_eq!(parse_mathlive_answer(latex, &interface).unwrap(), expected, "{latex}");
    }
}

fn quadratic_formula_tree(leading: AnswerNode) -> AnswerNode {
    AnswerNode::Fraction {
        numerator: Box::new(AnswerNode::Binary {
            operator: AnswerBinaryOperator::Add,
            left: Box::new(leading),
            right: Box::new(AnswerNode::PlusMinus(Box::new(AnswerNode::Binary {
                operator: AnswerBinaryOperator::Multiply,
                left: Box::new(AnswerNode::Integer(2)),
                right: Box::new(AnswerNode::Root {
                    radicand: Box::new(AnswerNode::Integer(5)),
                    index: None,
                }),
            }))),
        }),
        denominator: Box::new(AnswerNode::Integer(4)),
    }
}

#[test]
fn parses_quadratic_formula_answer_with_plus_minus_root_and_fraction() {
    let interface = structured();
    let parsed = parse_mathlive_answer(r"\frac{-3\pm2\sqrt{5}}{4}", &interface).unwrap();
    let expected = quadratic_formula_tree(AnswerNode::Negative(Box::new(AnswerNode::Integer(3))));
    assert_eq!(parsed, expected);
}

#[test]
fn accepts_nested_root_plus_minus_expression_within_the_ast_budget() {
    let interface = structured();
    let parsed = parse_mathlive_answer(r"\sqrt{57\pm\sqrt{99}}{42}", &interface).unwrap();
    let expected = AnswerNode::Binary {
        operator: AnswerBinaryOperator::Multiply,
        left: Box::new(AnswerNode::Root {
            radicand: Box::new(AnswerNode::Binary {
                operator: AnswerBinaryOperator::Add,
                left: Box::new(AnswerNode::Integer(57)),
                right: Box::new(AnswerNode::PlusMinus(Box::new(AnswerNode::Root {
                    radicand: Box::new(AnswerNode::Integer(99)),
                    index: None,
                }))),
            }),
            index: None,
        }),
        right: Box::new(AnswerNode::Integer(42)),
    };
    assert_eq!(parsed, expected);
    assert!(parsed.size() <= MAX_ANSWER_AST_SIZE);
}

#[test]
fn quadratic_formula_mathlive_input_grades_equal_to_canonical_answer() {
    let interface = structured();
    let actual = parse_mathlive_answer(r"\frac{-3\pm2\sqrt{5}}{4}", &interface).unwrap();
    let expected = quadratic_formula_tree(AnswerNode::Integer(-3));
    assert!(grade_answer(&expected, &actual).is_correct());
}

#[test]
fn grades_requested_redundant_and_multi_solution_mathlive_forms() {
    let interface = structured();
    let parse = |latex: &str| parse_mathlive_answer(latex, &interface).unwrap();

    let result = grade_answer(&AnswerNode::Integer(2), &parse("--2"));
    assert!(result.is_correct());
    assert!(result.warnings().contains(&GradeWarning::RedundantNegative));

    let plus_minus_two = AnswerNode::PlusMinus(Box::new(AnswerNode::Integer(2)));
    let result = grade_answer(&plus_minus_two, &parse(r"\pm\pm2"));
    assert!(result.is_correct());
    assert!(result.warnings().contains(&GradeWarning::RedundantPlusMinus));

    assert!(grade_answer(&plus_minus_two, &parse("2,-2")).is_correct());
    assert!(grade_answer(&plus_minus_two, &parse(r"\pm2")).is_correct());

    let offset_roots = AnswerNode::Tuple(vec![AnswerNode::Integer(-2), AnswerNode::Integer(6)]);
    let result = grade_answer(&offset_roots, &parse(r"2\pm4"));
    assert!(result.is_correct());
    assert!(result.warnings().contains(&GradeWarning::SolutionListRequired));
    assert!(grade_answer(&offset_roots, &parse("-2,6")).is_correct());

    let result = grade_answer(&AnswerNode::Integer(2), &parse("2,2"));
    assert!(!result.is_correct());
    assert!(result.warnings().contains(&GradeWarning::DuplicateSolution));
    assert!(grade_answer(&AnswerNode::Integer(2), &parse("2")).is_correct());

    let result = grade_answer(&AnswerNode::Integer(4), &parse(r"\sqrt{16}"));
    assert!(result.is_correct());
    assert!(result.warnings().contains(&GradeWarning::IntegerFormRequired));
}

#[test]
fn preserves_mathlive_placeholders_as_empty_nodes() {
    let interface = structured();
    assert_eq!(
        parse_mathlive_answer("\\frac{\\placeholder{}}{2}", &interface).unwrap(),
        AnswerNode::Fraction {
            numerator: Box::new(AnswerNode::Empty),
            denominator: Box::new(AnswerNode::Integer(2)),
        }
    );
    assert_eq!(
        parse_mathlive_answer("\\placeholder{}\\frac{\\placeholder{}}{\\placeholder{}}", &interface)
            .unwrap(),
        AnswerNode::MixedFraction {
            whole: Box::new(AnswerNode::Empty),
            numerator: Box::new(AnswerNode::Empty),
            denominator: Box::new(AnswerNode::Empty),
        }
    );
}

#[test]
fn rejects_pathological_latex_before_recursive_parsing() {
    let interface = structured();
    let deeply_nested = format!(
        "{}1{}",
        "\\sqrt{".repeat(MAX_ANSWER_AST_SIZE + 20),
        "}".repeat(MAX_ANSWER_AST_SIZE + 20)
    );
    assert!(matches!(
        parse_mathlive_answer(&deeply_nested, &interface),
        Err(EditorError::AnswerSizeLimit { .. })
    ));

    let oversized = "1".repeat(MAX_MATHLIVE_LATEX_BYTES + 1);
    assert!(matches!(
        parse_mathlive_answer(&oversized, &interface),
        Err(EditorError::AnswerSizeLimit { .. })
    ));

    let unary_chain = format!("{}1", "-".repeat(MAX_ANSWER_AST_SIZE + 20));
    assert!(matches!(
        parse_mathlive_answer(&unary_chain, &interface),
        Err(EditorError::AnswerSizeLimit { .. })
    ));

    let parenthesized = format!(
        "{}1{}",
        "(".repeat(MAX_ANSWER_AST_SIZE + 20),
        ")".repeat(MAX_ANSWER_AST_SIZE + 20)
    );
    assert!(matches!(
        parse_mathlive_answer(&parenthesized, &interface),
        Err(EditorError::AnswerSizeLimit { .. })
    ));
}

#[test]
fn unparsable_text_is_kept_as_an_error_node() {
    let interface = structured();
    assert_eq!(
        parse_mathlive_answer("1+", &interface),
        Ok(AnswerNode::Binary {
            operator: AnswerBinaryOperator::Add,
            left: Box::new(AnswerNode::Integer(1)),
            right: Box::new(AnswerNode::Empty),
        })
    );
    assert_eq!(
        parse_mathlive_answer("1)", &interface),
        Ok(AnswerNode::NanError("1)".to_owned()))
    );
    assert_eq!(
        parse_mathlive_answer("99999999999999999999", &interface),
        Err(EditorError::AnswerSizeLimit { max_size: MAX_ANSWER_AST_SIZE })
    );
}

#[test]
fn sizing_commands_and_white_space_are_ignored() {
    let interface = structured();
    assert_eq!(
        parse_mathlive_answer("\\left( 1 + 2 \\right)", &interface),
        parse_mathlive_answer("(1+2)", &interface)
    );
    assert_eq!(
        parse_mathlive_answer(" 3 \\times 4 ", &interface).unwrap(),
        AnswerNode::Binary {
            operator: AnswerBinaryOperator::Multiply,
            left: Box::new(AnswerNode::Integer(3)),
            right: Box::new(AnswerNode::Integer(4)),
        }
    );
}

#[test]
fn capabilities_of_the_interface_are_enforced() {
    let simple = AnswerInputInterface::SimpleNumeric { allow_decimal: false, allow_negative: true };
    assert_eq!(
        parse_mathlive_answer("1.5", &simple),
        Err(EditorError::StructureNotAllowed { structure: EditorStructure::Decimal })
    );
    assert_eq!(parse_mathlive_answer("-7", &simple), Ok(AnswerNode::Negative(Box::new(AnswerNode::Integer(7)))));
    assert_eq!(
        parse_mathlive_answer("\\sqrt[3]{8}", &structured()).unwrap(),
        AnswerNode::Root {
            radicand: Box::new(AnswerNode::Integer(8)),
            index: Some(Box::new(AnswerNode::Integer(3))),
        }
    );
}
