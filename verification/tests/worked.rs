use drill_core::answer::AnswerNode;
use drill_core::error::ProblemInvariantError;
use drill_core::model::{AnswerSchema, ArithmeticExpression, ArithmeticOperator, ProblemPrompt};
use drill_core::worked::{ColumnMultiplicationPartial, LongDivisionStep, WorkedSolution, WorkedSolutionKind};

fn integer(value: i64) -> ArithmeticExpression {
    ArithmeticExpression::Integer { value }
}

fn partials(solution: &WorkedSolution) -> Vec<ColumnMultiplicationPartial> {
    match solution.kind() {
        WorkedSolutionKind::ColumnMultiplication { partial_products } => partial_products.clone(),
        other => panic!("expected a column multiplication, got {other:?}"),
    }
}

#[test]
fn valid_column_multiplication_derives_its_worked_solution() {
    let prompt = ProblemPrompt::ColumnArithmetic { operator: ArithmeticOperator::Multiply, left: integer(12), right: integer(3) };
    let solution = WorkedSolution::for_prompt(&prompt, &AnswerSchema::Integer { min: 0, max: 100 }, &AnswerNode::Integer(36))
        .unwrap();
    assert!(solution.is_some());
    assert_eq!(partials(&solution.unwrap()), vec![ColumnMultiplicationPartial { value: 36, place: 0 }]);
}

#[test]
fn worked_solution_is_derived_from_prompt_and_rejects_unrenderable_column_semantics() {
    let nested = ArithmeticExpression::Binary {
        operator: ArithmeticOperator::Add,
        left: Box::new(integer(2)),
        right: Box::new(integer(3)),
    };
    let prompt = ProblemPrompt::ColumnArithmetic { operator: ArithmeticOperator::Multiply, left: nested, right: integer(4) };
    assert_eq!(
        WorkedSolution::for_prompt(&prompt, &AnswerSchema::Integer { min: 0, max: 100 }, &AnswerNode::Integer(20)),
        Err(ProblemInvariantError::WorkedSolution)
    );
    let addition = ProblemPrompt::ColumnArithmetic { operator: ArithmeticOperator::Add, left: integer(2), right: integer(3) };
    assert_eq!(
        WorkedSolution::for_prompt(&addition, &AnswerSchema::Integer { min: 0, max: 100 }, &AnswerNode::Integer(5)),
        Ok(None)
    );
    assert_eq!(
        WorkedSolution::for_prompt(
            &ProblemPrompt::Addition { left: 1, right: 2 },
            &AnswerSchema::Integer { min: 0, max: 18 },
            &AnswerNode::Integer(3)
        ),
        Ok(None)
    );
}

#[test]
fn multiplication_rows_follow_the_multiplier_digits_from_the_units_up() {
    let solution = WorkedSolution::for_column_arithmetic(
        ArithmeticOperator::Multiply,
        &integer(-123),
        &ArithmeticExpression::ExactDecimal { coefficient: 405, scale: 1 },
        &AnswerSchema::Algebraic,
        &AnswerNode::Integer(0),
    )
    .unwrap();
    assert_eq!(
        partials(&solution),
        vec![
            ColumnMultiplicationPartial { value: 615, place: 0 },
            ColumnMultiplicationPartial { value: 0, place: 1 },
            ColumnMultiplicationPartial { value: 492, place: 2 },
        ]
    );
    assert!(solution.has_js_safe_wire_values());
    let overflowing = WorkedSolution::for_column_arithmetic(
        ArithmeticOperator::Multiply,
        &integer(i64::MAX),
        &integer(2),
        &AnswerSchema::Algebraic,
        &AnswerNode::Integer(0),
    );
    assert!(overflowing.is_none());
    let unsafe_on_the_wire = WorkedSolution::for_column_arithmetic(
        ArithmeticOperator::Multiply,
        &integer(1 << 60),
        &integer(1),
        &AnswerSchema::Algebraic,
        &AnswerNode::Integer(0),
    )
    .unwrap();
    assert!(!unsafe_on_the_wire.has_js_safe_wire_values());
}

#[test]
fn long_division_brings_digits_down_until_the_quotient_starts() {
    let solution = WorkedSolution::for_column_arithmetic(
        ArithmeticOperator::Divide,
        &integer(17),
        &integer(5),
        &AnswerSchema::OrderedPair,
        &AnswerNode::Tuple(vec![AnswerNode::Integer(3), AnswerNode::Integer(2)]),
    )
    .unwrap();
    assert_eq!(
        solution.kind(),
        &WorkedSolutionKind::LongDivision {
            divisor: 5,
            dividend_coefficient: 17,
            dividend_scale: 0,
            quotient_trailing_cells: 0,
            steps: vec![LongDivisionStep { product: 15, after: 2, product_offset: 0, after_offset: 0 }],
        }
    );
}

#[test]
fn long_division_appends_zeros_for_decimal_places() {
    let solution = WorkedSolution::for_column_arithmetic(
        ArithmeticOperator::Divide,
        &integer(7),
        &integer(4),
        &AnswerSchema::Decimal { max_scale: 2 },
        &AnswerNode::ExactDecimal { coefficient: 175, scale: 2 },
    )
    .unwrap();
    assert_eq!(
        solution.kind(),
        &WorkedSolutionKind::LongDivision {
            divisor: 4,
            dividend_coefficient: 700,
            dividend_scale: 2,
            quotient_trailing_cells: 0,
            steps: vec![
                LongDivisionStep { product: 4, after: 30, product_offset: 2, after_offset: 1 },
                LongDivisionStep { product: 28, after: 20, product_offset: 1, after_offset: 0 },
                LongDivisionStep { product: 20, after: 0, product_offset: 0, after_offset: 0 },
            ],
        }
    );
    assert!(WorkedSolution::for_column_arithmetic(
        ArithmeticOperator::Divide,
        &integer(7),
        &integer(0),
        &AnswerSchema::Algebraic,
        &AnswerNode::Integer(0),
    )
    .is_none());
}

#[test]
fn rounded_and_remainder_schemas_set_how_far_the_division_runs() {
    // 2 / 3 rounded to one place is worked to two places.
    let rounded = WorkedSolution::for_column_arithmetic(
        ArithmeticOperator::Divide,
        &integer(2),
        &integer(3),
        &AnswerSchema::RoundedDecimal { scale: 1 },
        &AnswerNode::ExactDecimal { coefficient: 7, scale: 1 },
    )
    .unwrap();
    match rounded.kind() {
        WorkedSolutionKind::LongDivision { dividend_coefficient, dividend_scale, quotient_trailing_cells, steps, .. } => {
            assert_eq!((*dividend_coefficient, *dividend_scale, *quotient_trailing_cells), (200, 2, 1));
            assert_eq!(steps.len(), 2);
        },
        other => panic!("expected a long division, got {other:?}"),
    }
    // 7.5 / 2 stopped after the units digit leaves the remainder 1.
    let remainder = WorkedSolution::for_column_arithmetic(
        ArithmeticOperator::Divide,
        &ArithmeticExpression::ExactDecimal { coefficient: 75, scale: 1 },
        &integer(2),
        &AnswerSchema::DecimalDivisionRemainder { quotient_scale: 0, remainder_max_scale: 1 },
        &AnswerNode::Tuple(vec![AnswerNode::Integer(3), AnswerNode::ExactDecimal { coefficient: 15, scale: 1 }]),
    )
    .unwrap();
    match remainder.kind() {
        WorkedSolutionKind::LongDivision { steps, .. } => {
            assert_eq!(steps, &vec![LongDivisionStep { product: 6, after: 15, product_offset: 1, after_offset: 0 }]);
        },
        other => panic!("expected a long division, got {other:?}"),
    }
}
