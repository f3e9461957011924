use drill_core::exact::square_free_sqrt_decomposition;
use drill_core::model::{
    is_js_safe_integer, AnswerInputInterface, ArithmeticExpression, ArithmeticOperator, EditorStructure,
    LiarCount, LiarStatement, MiniSudokuGrid, PeopleCount, PersonIndex, RationalCoefficient,
    JS_SAFE_INTEGER_MAX, MAX_LIAR_PUZZLE_PEOPLE,
};
use drill_core::answer::AnswerNode;
use drill_core::error::EditorError;

#[test]
fn liar_count_type_and_statement_validation_encode_only_nontrivial_counts() {
    assert!(LiarCount::new(0).is_none());
    assert!(LiarCount::new(1).is_some());
    assert!(LiarCount::new(3).is_some());
    assert!(LiarCount::new(MAX_LIAR_PUZZLE_PEOPLE).is_none());

    let count_three = LiarStatement::ExactLiarCount { count: LiarCount::new(3).unwrap() };
    assert!(!count_three.is_valid_for(PeopleCount::new(3).unwrap()));
    assert!(count_three.is_valid_for(PeopleCount::new(4).unwrap()));
}

#[test]
fn person_and_people_counts_are_range_checked() {
    assert!(PersonIndex::new(0).is_none());
    assert_eq!(PersonIndex::new(4).map(|p| p.value()), Some(4));
    assert!(PersonIndex::new(5).is_none());
    assert!(PeopleCount::new(2).is_none());
    assert_eq!(PeopleCount::new(3).map(|p| p.value()), Some(3));
    let first = PersonIndex::new(1).unwrap();
    let same = LiarStatement::BothLiar { first, second: first };
    assert!(!same.is_valid_for(PeopleCount::new(3).unwrap()));
    let far = LiarStatement::SaysLiar { person: PersonIndex::new(4).unwrap() };
    assert!(!far.is_valid_for(PeopleCount::new(3).unwrap()));
    assert!(far.is_valid_for(PeopleCount::new(4).unwrap()));
}

#[test]
fn mini_sudoku_grid_accepts_only_digits_one_to_four() {
    let mut cells = [None; 16];
    cells[0] = Some(1);
    cells[15] = Some(4);
    assert!(MiniSudokuGrid::new(cells).is_some());
    cells[3] = Some(5);
    assert!(MiniSudokuGrid::new(cells).is_none());
    cells[3] = Some(0);
    assert!(MiniSudokuGrid::new(cells).is_none());
}

#[test]
fn js_safe_integers_stop_at_two_to_the_fifty_three() {
    assert!(is_js_safe_integer(JS_SAFE_INTEGER_MAX));
    assert!(is_js_safe_integer(-JS_SAFE_INTEGER_MAX));
    assert!(!is_js_safe_integer(JS_SAFE_INTEGER_MAX + 1));
    let expression = ArithmeticExpression::Binary {
        operator: ArithmeticOperator::Add,
        left: Box::new(ArithmeticExpression::Integer { value: 1 }),
        right: Box::new(ArithmeticExpression::Rational { value: RationalCoefficient::new(1, 3).unwrap() }),
    };
    assert_eq!(expression.clone(), expression);
}

#[test]
fn rational_coefficients_reduce_and_refuse_zero_denominators() {
    let half = RationalCoefficient::new(2, 4).unwrap();
    assert_eq!((half.numerator(), half.denominator()), (1, 2));
    assert!(RationalCoefficient::new(1, 0).is_none());
    let third = RationalCoefficient::new(-1, -3).unwrap();
    assert_eq!((third.numerator(), third.denominator()), (1, 3));
    let sum = half.checked_add(third).unwrap();
    assert_eq!((sum.numerator(), sum.denominator()), (5, 6));
    assert!(half.divide(RationalCoefficient::zero()).is_none());
    assert!(RationalCoefficient::new(i64::MIN, 3).is_none() || RationalCoefficient::new(i64::MIN, 3).is_some());
}

#[test]
fn input_interfaces_validate_parsed_answers() {
    let grid = AnswerInputInterface::DigitGrid { min_digit: 1, max_digit: 4, cell_count: 2 };
    assert!(grid.is_structurally_valid());
    let ok = AnswerNode::Tuple(vec![AnswerNode::Integer(1), AnswerNode::Empty]);
    assert_eq!(grid.validate_answer(&ok), Ok(()));
    let bad = AnswerNode::Tuple(vec![AnswerNode::Integer(5), AnswerNode::Empty]);
    assert_eq!(grid.validate_answer(&bad), Err(EditorError::InputInterfaceViolation));
    let duplicated = AnswerInputInterface::StructuredMath {
        allowed_structures: vec![EditorStructure::Root, EditorStructure::Root],
    };
    assert!(!duplicated.is_structurally_valid());
    assert!(!grid.allows_structure(EditorStructure::Fraction));
}

#[test]
fn square_free_decomposition_takes_out_every_square() {
    assert_eq!(square_free_sqrt_decomposition(72), Some((6, 2)));
    assert_eq!(square_free_sqrt_decomposition(50), Some((5, 2)));
    assert_eq!(square_free_sqrt_decomposition(49), Some((7, 1)));
    assert_eq!(square_free_sqrt_decomposition(30), Some((1, 30)));
    assert_eq!(square_free_sqrt_decomposition(1), Some((1, 1)));
    assert_eq!(square_free_sqrt_decomposition(0), Some((1, 0)));
}

#[test]
fn coefficient_arithmetic_identities_hold() {
    let zero = RationalCoefficient::zero();
    let one = RationalCoefficient::new(1, 1).unwrap();
    let half = RationalCoefficient::new(2, 4).unwrap();
    assert_eq!((half.numerator(), half.denominator()), (1, 2));
    assert_eq!(RationalCoefficient::new(0, -7), Some(zero));
    assert_eq!(RationalCoefficient::new(i64::MIN, -1), None);
    let extreme = RationalCoefficient::new(i64::MIN, 3).unwrap();
    for a in [half, extreme, RationalCoefficient::new(-5, 3).unwrap()] {
        assert_eq!(a.checked_add(zero), Some(a));
        assert_eq!(zero.checked_add(a), Some(a));
        assert_eq!(a.subtract(a), Some(zero));
        assert_eq!(a.subtract(zero), Some(a));
        assert_eq!(a.multiply(one), Some(a));
        assert_eq!(a.multiply(zero), Some(zero));
        assert_eq!(a.multiply(half), half.multiply(a));
        assert_eq!(a.checked_add(half), half.checked_add(a));
        assert_eq!(a.divide(zero), None);
        assert_eq!(a.divide(a), Some(one));
        assert!(!a.is_zero());
    }
    assert!(zero.is_zero());
}

#[test]
fn dividing_then_multiplying_gives_the_dividend_back() {
    let values = [
        RationalCoefficient::new(3, 4).unwrap(),
        RationalCoefficient::new(-7, 5).unwrap(),
        RationalCoefficient::new(i64::MIN, 3).unwrap(),
        RationalCoefficient::new(12, 1).unwrap(),
    ];
    for a in values {
        for b in values {
            if let Some(q) = a.divide(b) {
                assert_eq!(q.multiply(b), Some(a));
            }
        }
    }
    let q = values[0].divide(values[1]).unwrap();
    assert_eq!((q.numerator(), q.denominator()), (-15, 28));
    assert_eq!(q.multiply(values[1]), Some(values[0]));
    let third = RationalCoefficient::new(2, 6).unwrap();
    assert_eq!(third.numerator() * 6, 2 * third.denominator());
}
