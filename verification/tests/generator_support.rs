use drill_core::answer::AnswerNode;
use drill_core::generator_support::{
    arithmetic_leaf_column_grid_cells, arithmetic_leaf_significant_digits, draw_bounded_rational_arithmetic_ast,
    draw_decimal_coefficient, draw_decimal_coefficient_with_significant_digits, draw_decimal_operand,
    draw_decimal_operand_with_significant_digits, draw_signed_integer, ensure_negative_term, evaluate_expression,
    exact_decimal_rational, mixed_number_answer, rational_answer, rational_less_than, rational_to_arithmetic_expression,
    rational_to_exact_decimal_answer,
};
use drill_core::model::{ArithmeticExpression, RationalCoefficient};
use drill_core::rng::{seed_to_u64, DeterministicRng};

fn r(numerator: i64, denominator: i64) -> RationalCoefficient {
    RationalCoefficient::new(numerator, denominator).unwrap()
}

#[test]
fn generation_helpers_reject_empty_or_zero_bounds_without_reaching_rng_panics() {
    let mut rng = DeterministicRng::from_seed("helper-bounds");
    assert!(draw_decimal_coefficient(&mut rng, 0).is_none());
    assert!(draw_decimal_coefficient(&mut rng, u32::MAX).is_none());
    assert!(draw_decimal_operand(&mut rng, 0, 2).is_none());
    assert!(draw_decimal_operand(&mut rng, 2, 0).is_none());
    assert!(draw_decimal_coefficient_with_significant_digits(&mut rng, 0).is_none());
    assert!(draw_decimal_operand_with_significant_digits(&mut rng, 2, 0).is_none());
    for _ in 0..32 {
        let one_digit = draw_decimal_coefficient_with_significant_digits(&mut rng, 1).unwrap();
        let two_digit = draw_decimal_coefficient_with_significant_digits(&mut rng, 2).unwrap();
        assert!((1..=9).contains(&one_digit));
        assert!((10..=99).contains(&two_digit));
        assert_ne!(two_digit % 10, 0);
    }
    assert!(draw_signed_integer(&mut rng, 0).is_none());
    assert!(draw_signed_integer(&mut rng, -1).is_none());

    let mut empty: Vec<i64> = vec![];
    assert!(ensure_negative_term(&mut rng, &mut empty).is_none());
    assert!(draw_bounded_rational_arithmetic_ast(&mut rng, &[]).is_none());
}

#[test]
fn splitmix_matches_its_reference_outputs() {
    let mut rng = DeterministicRng::from_seed("0");
    assert_eq!(rng.next_u64(), 0xE220_A839_7B1D_CDAF);
    assert_eq!(rng.next_u64(), 0x6E78_9E6A_A1B9_65F4);
    let mut again = DeterministicRng::from_seed("0x0");
    assert_eq!(again.next_u64(), 0xE220_A839_7B1D_CDAF);
}

#[test]
fn seeds_read_as_numbers_or_hash_to_fnv1a() {
    assert_eq!(seed_to_u64("0x1F"), 31);
    assert_eq!(seed_to_u64("0XfF"), 255);
    assert_eq!(seed_to_u64("  42\n"), 42);
    assert_eq!(seed_to_u64("+7"), 7);
    assert_eq!(seed_to_u64("18446744073709551615"), u64::MAX);
    let fnv = |bytes: &[u8]| {
        let mut hash = 0xcbf2_9ce4_8422_2325_u64;
        for byte in bytes {
            hash ^= u64::from(*byte);
            hash = hash.wrapping_mul(0x1000_0000_01b3);
        }
        hash
    };
    assert_eq!(seed_to_u64("18446744073709551616"), fnv(b"18446744073709551616"));
    assert_eq!(seed_to_u64("Ab3Z"), fnv(b"Ab3Z"));
    assert_eq!(seed_to_u64(" 0xZZ "), fnv(b" 0xZZ "));
    assert_eq!(seed_to_u64("é"), fnv("é".as_bytes()));
    assert_eq!(seed_to_u64(""), fnv(b""));
}

#[test]
fn bounded_draws_stay_in_range_and_are_reproducible() {
    let mut first = DeterministicRng::from_seed("draws");
    let mut second = DeterministicRng::from_seed("draws");
    for upper in 1..200_u64 {
        let value = first.next_bounded(upper);
        assert!(value < upper);
        assert_eq!(second.next_bounded(upper), value);
    }
    for _ in 0..100 {
        let (left, right) = first.next_ordered_pair();
        assert!((1..=9).contains(&left) && (1..=9).contains(&right));
    }
}

#[test]
fn answers_are_built_from_rationals() {
    assert_eq!(rational_answer(r(4, 1)), AnswerNode::Integer(4));
    assert_eq!(
        rational_answer(r(-3, 4)),
        AnswerNode::Fraction { numerator: Box::new(AnswerNode::Integer(-3)), denominator: Box::new(AnswerNode::Integer(4)) }
    );
    assert_eq!(
        mixed_number_answer(r(7, 2)),
        AnswerNode::MixedFraction {
            whole: Box::new(AnswerNode::Integer(3)),
            numerator: Box::new(AnswerNode::Integer(1)),
            denominator: Box::new(AnswerNode::Integer(2)),
        }
    );
    assert_eq!(mixed_number_answer(r(1, 2)), rational_answer(r(1, 2)));
    assert_eq!(mixed_number_answer(r(6, 3)), AnswerNode::Integer(2));
    assert_eq!(rational_to_exact_decimal_answer(r(3, 8), 3), Some(AnswerNode::ExactDecimal { coefficient: 375, scale: 3 }));
    assert_eq!(rational_to_exact_decimal_answer(r(3, 8), 2), None);
    assert_eq!(rational_to_exact_decimal_answer(r(1, 3), 10), None);
    assert_eq!(rational_to_exact_decimal_answer(r(-5, 1), 0), Some(AnswerNode::Integer(-5)));
    assert_eq!(
        rational_to_arithmetic_expression(r(1, 20), 4),
        Some(ArithmeticExpression::ExactDecimal { coefficient: 5, scale: 2 })
    );
    assert_eq!(exact_decimal_rational(25, 2), Some(r(1, 4)));
    assert_eq!(exact_decimal_rational(1, 19), None);
    assert!(rational_less_than(r(1, 3), r(1, 2)));
    assert!(!rational_less_than(r(1, 2), r(1, 2)));
    assert!(rational_less_than(r(i64::MIN, 1), r(i64::MAX, 1)));
}

#[test]
fn leaves_report_digits_and_grid_cells() {
    assert_eq!(arithmetic_leaf_significant_digits(&ArithmeticExpression::Integer { value: -120 }), Some(3));
    assert_eq!(arithmetic_leaf_significant_digits(&ArithmeticExpression::Integer { value: 0 }), Some(1));
    assert_eq!(arithmetic_leaf_significant_digits(&ArithmeticExpression::Integer { value: i64::MIN }), Some(19));
    assert_eq!(arithmetic_leaf_column_grid_cells(&ArithmeticExpression::ExactDecimal { coefficient: 5, scale: 2 }), Some(3));
    assert_eq!(arithmetic_leaf_column_grid_cells(&ArithmeticExpression::ExactDecimal { coefficient: 12345, scale: 2 }), Some(5));
    assert_eq!(
        arithmetic_leaf_column_grid_cells(&ArithmeticExpression::Rational { value: r(1, 2) }),
        None
    );
}

#[test]
fn signed_draws_and_negative_terms() {
    let mut rng = DeterministicRng::from_seed("signs");
    for _ in 0..64 {
        let value = draw_signed_integer(&mut rng, 5).unwrap();
        assert!(value != 0 && (-5..=5).contains(&value));
    }
    let mut values = vec![3, 4, 5];
    assert!(ensure_negative_term(&mut rng, &mut values).is_some());
    assert_eq!(values.iter().filter(|v| **v < 0).count(), 1);
    let mut mixed = vec![3, -4];
    assert!(ensure_negative_term(&mut rng, &mut mixed).is_some());
    assert_eq!(mixed, vec![3, -4]);
}

#[test]
fn bounded_rational_trees_keep_their_values_small() {
    let mut rng = DeterministicRng::from_seed("trees");
    assert_eq!(draw_bounded_rational_arithmetic_ast(&mut rng, &[7]), Some(ArithmeticExpression::Integer { value: 7 }));
    let mut produced = 0;
    for _ in 0..64 {
        if let Some(tree) = draw_bounded_rational_arithmetic_ast(&mut rng, &[2, 3, 4]) {
            produced += 1;
            let value = evaluate_expression(&tree).unwrap();
            assert!(value.numerator().abs() <= 729 && value.denominator() <= 81);
        }
    }
    assert!(produced > 0);
}
