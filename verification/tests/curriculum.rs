use drill_core::answer::AnswerNode;
use drill_core::curriculum::{
    answer_has_no_negative_values, expression_has_no_negative_values, input_interface_has_no_negative_capability,
};
use drill_core::model::{AnswerInputInterface, ArithmeticExpression, ArithmeticOperator, EditorStructure, RationalCoefficient};

#[test]
fn sign_nodes_and_negative_leaves_are_negative_values() {
    assert!(answer_has_no_negative_values(&AnswerNode::Integer(0)));
    assert!(!answer_has_no_negative_values(&AnswerNode::Integer(-1)));
    assert!(!answer_has_no_negative_values(&AnswerNode::ExactDecimal { coefficient: -5, scale: 1 }));
    assert!(!answer_has_no_negative_values(&AnswerNode::Negative(Box::new(AnswerNode::Integer(3)))));
    assert!(!answer_has_no_negative_values(&AnswerNode::PlusMinus(Box::new(AnswerNode::Integer(3)))));
    let tuple = AnswerNode::Tuple(vec![AnswerNode::Integer(1), AnswerNode::Integer(-2)]);
    assert!(!answer_has_no_negative_values(&tuple));
    let fraction = AnswerNode::Fraction {
        numerator: Box::new(AnswerNode::Integer(1)),
        denominator: Box::new(AnswerNode::Integer(2)),
    };
    assert!(answer_has_no_negative_values(&fraction));
}

#[test]
fn raw_text_with_a_minus_sign_is_negative() {
    assert!(!answer_has_no_negative_values(&AnswerNode::NanError("-3".to_string())));
    assert!(!answer_has_no_negative_values(&AnswerNode::NanError("\u{2212}3".to_string())));
    assert!(answer_has_no_negative_values(&AnswerNode::NanError("abc".to_string())));
}

#[test]
fn expressions_are_checked_leaf_by_leaf() {
    let positive = ArithmeticExpression::Binary {
        operator: ArithmeticOperator::Subtract,
        left: Box::new(ArithmeticExpression::Integer { value: 5 }),
        right: Box::new(ArithmeticExpression::Rational { value: RationalCoefficient::new(1, 2).unwrap() }),
    };
    assert!(expression_has_no_negative_values(&positive));
    let negative = ArithmeticExpression::Binary {
        operator: ArithmeticOperator::Add,
        left: Box::new(ArithmeticExpression::Integer { value: 5 }),
        right: Box::new(ArithmeticExpression::ExactDecimal { coefficient: -1, scale: 1 }),
    };
    assert!(!expression_has_no_negative_values(&negative));
}

#[test]
fn inputs_offering_a_sign_are_not_curriculum_safe() {
    assert!(input_interface_has_no_negative_capability(&AnswerInputInterface::SimpleNumeric {
        allow_decimal: true,
        allow_negative: false
    }));
    assert!(!input_interface_has_no_negative_capability(&AnswerInputInterface::SimpleNumeric {
        allow_decimal: false,
        allow_negative: true
    }));
    assert!(!input_interface_has_no_negative_capability(&AnswerInputInterface::StructuredMath {
        allowed_structures: vec![EditorStructure::Fraction, EditorStructure::PlusMinus]
    }));
    assert!(input_interface_has_no_negative_capability(&AnswerInputInterface::StructuredMath {
        allowed_structures: vec![EditorStructure::Fraction]
    }));
    assert!(input_interface_has_no_negative_capability(&AnswerInputInterface::DigitGrid {
        min_digit: 1,
        max_digit: 4,
        cell_count: 16
    }));
}
