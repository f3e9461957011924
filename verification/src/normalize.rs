//! Canonical normal form of answer trees. Exact numeric nodes normalize to a
//! reduced rational; normalization never passes values through binary float.

use vstd::prelude::*;
use crate::answer::{
    lemma_tuple_view_eq, lemma_view_nodes, view_nodes, within_node_limit, AnswerBinaryOperator,
    AnswerNode, AnswerValue,
};
use crate::exact::{abs_int, gcd_spec, ExactRational};
use crate::exact_value::{lemma_rational_value_reduced, rational_from_answer, rational_value};

verus! {

pub open spec fn in_i64(x: int) -> bool {
    i64::MIN <= x <= i64::MAX
}

/// An exact rational as an integer node, or as a fraction of integer nodes.
pub open spec fn rational_to_answer(r: ExactRational) -> Option<AnswerValue> {
    if !in_i64(r.numerator as int) || !in_i64(r.denominator as int) {
        None
    } else if r.denominator == 1 {
        Some(AnswerValue::Integer(r.numerator as i64))
    } else {
        Some(
            AnswerValue::Fraction {
                numerator: Box::new(AnswerValue::Integer(r.numerator as i64)),
                denominator: Box::new(AnswerValue::Integer(r.denominator as i64)),
            },
        )
    }
}

/// Removes trailing decimal zeroes from a nonzero scaled coefficient.
pub open spec fn strip_decimal_zeros(coefficient: int, scale: nat) -> (int, nat)
    decreases scale,
{
    if scale > 0 && coefficient % 10 == 0 {
        strip_decimal_zeros(coefficient / 10, (scale - 1) as nat)
    } else {
        (coefficient, scale)
    }
}

/// The canonical form of an answer within the structural budget.
pub open spec fn normal(v: AnswerValue) -> AnswerValue
    decreases v, 1nat,
{
    match rational_value(v) {
        Some(r) => match rational_to_answer(r) {
            Some(a) => a,
            None => normal_structure(v),
        },
        None => normal_structure(v),
    }
}

pub open spec fn normal_structure(v: AnswerValue) -> AnswerValue
    decreases v, 0nat,
{
    match v {
        AnswerValue::ExactDecimal { coefficient, scale } => if coefficient == 0 {
            AnswerValue::Integer(0)
        } else {
            let (c, s) = strip_decimal_zeros(coefficient as int, scale as nat);
            if s == 0 {
                AnswerValue::Integer(c as i64)
            } else {
                AnswerValue::ExactDecimal { coefficient: c as i64, scale: s as u32 }
            }
        },
        AnswerValue::Fraction { numerator, denominator } => AnswerValue::Fraction {
            numerator: Box::new(normal(*numerator)),
            denominator: Box::new(normal(*denominator)),
        },
        AnswerValue::MixedFraction { whole, numerator, denominator } => AnswerValue::MixedFraction {
            whole: Box::new(normal(*whole)),
            numerator: Box::new(normal(*numerator)),
            denominator: Box::new(normal(*denominator)),
        },
        AnswerValue::Root { radicand, index } => AnswerValue::Root {
            radicand: Box::new(normal(*radicand)),
            index: match index {
                Some(i) => Some(Box::new(normal(*i))),
                None => None,
            },
        },
        AnswerValue::Negative(x) => {
            let n = normal(*x);
            match n {
                AnswerValue::Integer(y) => if y == i64::MIN {
                    AnswerValue::Negative(Box::new(AnswerValue::Integer(y)))
                } else {
                    AnswerValue::Integer((-y) as i64)
                },
                AnswerValue::Negative(inner) => *inner,
                _ => AnswerValue::Negative(Box::new(n)),
            }
        },
        AnswerValue::PlusMinus(x) => {
            let n = normal(*x);
            match n {
                AnswerValue::PlusMinus(inner) => AnswerValue::PlusMinus(inner),
                _ => AnswerValue::PlusMinus(Box::new(n)),
            }
        },
        AnswerValue::Binary { operator, left, right } => {
            let l = normal(*left);
            let r = normal(*right);
            binary_simplified(operator, l, r)
        },
        AnswerValue::Tuple(s) => AnswerValue::Tuple(normal_seq(s, s.len())),
        _ => v,
    }
}

/// Identity and absorbing-element simplification of a binary node whose
/// operands are already normal.
pub open spec fn binary_simplified(operator: AnswerBinaryOperator, l: AnswerValue, r: AnswerValue) -> AnswerValue {
    if operator == AnswerBinaryOperator::Add && l == AnswerValue::Integer(0) {
        r
    } else if operator == AnswerBinaryOperator::Add && r == AnswerValue::Integer(0) {
        l
    } else if operator == AnswerBinaryOperator::Subtract && r == AnswerValue::Integer(0) {
        l
    } else if operator == AnswerBinaryOperator::Multiply && (l == AnswerValue::Integer(0) || r
        == AnswerValue::Integer(0)) {
        AnswerValue::Integer(0)
    } else if operator == AnswerBinaryOperator::Multiply && l == AnswerValue::Integer(1) {
        r
    } else if operator == AnswerBinaryOperator::Multiply && r == AnswerValue::Integer(1) {
        l
    } else {
        AnswerValue::Binary { operator, left: Box::new(l), right: Box::new(r) }
    }
}

pub open spec fn normal_seq(s: Seq<AnswerValue>, k: nat) -> Seq<AnswerValue>
    decreases s, k,
{
    if k == 0 || k > s.len() {
        Seq::empty()
    } else {
        normal_seq(s, (k - 1) as nat).push(normal(s[k - 1]))
    }
}

pub proof fn lemma_normal_seq(s: Seq<AnswerValue>, k: nat)
    requires
        k <= s.len(),
    ensures
        normal_seq(s, k).len() == k,
        forall|i: int| 0 <= i < k ==> #[trigger] normal_seq(s, k)[i] == normal(s[i]),
    decreases k,
{
    if k > 0 {
        lemma_normal_seq(s, (k - 1) as nat);
    }
}

/// The result of `normalize_answer`.
pub open spec fn normalized(v: AnswerValue) -> AnswerValue {
    if !within_node_limit(v) {
        AnswerValue::NanError("answer_ast_size_limit"@)
    } else {
        normal(v)
    }
}

/// An answer with an exact value that fits `i64` normalizes to that value in
/// lowest terms: an integer when the denominator is one, otherwise a
/// fraction of two integers with a denominator of at least two and no
/// common factor.
pub proof fn lemma_normalized_in_lowest_terms(v: AnswerValue)
    requires
        within_node_limit(v),
        rational_value(v) is Some,
        in_i64(rational_value(v)->0.numerator as int),
        in_i64(rational_value(v)->0.denominator as int),
    ensures
        ({
            let r = rational_value(v)->0;
            &&& r.denominator == 1 ==> normalized(v) == AnswerValue::Integer(r.numerator as i64)
            &&& r.denominator != 1 ==> normalized(v) == (AnswerValue::Fraction {
                numerator: Box::new(AnswerValue::Integer(r.numerator as i64)),
                denominator: Box::new(AnswerValue::Integer(r.denominator as i64)),
            })
            &&& r.denominator != 1 ==> r.denominator >= 2
            &&& gcd_spec(abs_int(r.numerator as int), r.denominator as nat) == 1
        }),
{
    lemma_rational_value_reduced(v);
}

fn exact_rational_into_answer(value: ExactRational) -> (r: Option<AnswerNode>)
    ensures
        match rational_to_answer(value) {
            Some(a) => r matches Some(n) && n@ == a,
            None => r is None,
        },
{
    if value.numerator < -9223372036854775808i128 || value.numerator > 9223372036854775807i128 {
        return None;
    }
    if value.denominator < -9223372036854775808i128 || value.denominator > 9223372036854775807i128 {
        return None;
    }
    let numerator = value.numerator as i64;
    let denominator = value.denominator as i64;
    assert(numerator == value.numerator);
    assert(denominator == value.denominator);
    if denominator == 1 {
        Some(AnswerNode::Integer(numerator))
    } else {
        let n = AnswerNode::Integer(numerator);
        let d = AnswerNode::Integer(denominator);
        assert(n@ == AnswerValue::Integer(numerator));
        assert(d@ == AnswerValue::Integer(denominator));
        Some(AnswerNode::Fraction { numerator: Box::new(n), denominator: Box::new(d) })
    }
}

fn is_integer_node(n: &AnswerNode, value: i64) -> (r: bool)
    ensures
        r == (n@ == AnswerValue::Integer(value)),
{
    match n {
        AnswerNode::Integer(x) => *x == value,
        _ => false,
    }
}

fn binary_simplify(operator: AnswerBinaryOperator, left: AnswerNode, right: AnswerNode) -> (r: AnswerNode)
    ensures
        r@ == binary_simplified(operator, left@, right@),
{
    let left_zero = is_integer_node(&left, 0);
    let right_zero = is_integer_node(&right, 0);
    let left_one = is_integer_node(&left, 1);
    let right_one = is_integer_node(&right, 1);
    match operator {
        AnswerBinaryOperator::Add => if left_zero {
            return right;
        } else if right_zero {
            return left;
        },
        AnswerBinaryOperator::Subtract => if right_zero {
            return left;
        },
        AnswerBinaryOperator::Multiply => if left_zero || right_zero {
            return AnswerNode::Integer(0);
        } else if left_one {
            return right;
        } else if right_one {
            return left;
        },
    }
    AnswerNode::Binary { operator, left: Box::new(left), right: Box::new(right) }
}

fn normalize_answer_bounded(answer: &AnswerNode) -> (r: AnswerNode)
    ensures
        r@ == normal(answer@),
    decreases answer,
{
    if let Some(value) = rational_from_answer(answer) {
        if let Some(normalized) = exact_rational_into_answer(value) {
            return normalized;
        }
    }
    match answer {
        AnswerNode::Empty => AnswerNode::Empty,
        AnswerNode::Integer(value) => AnswerNode::Integer(*value),
        AnswerNode::ExactDecimal { coefficient, scale } => {
            let mut coefficient = *coefficient;
            let mut scale = *scale;
            if coefficient == 0 {
                return AnswerNode::Integer(0);
            }
            let ghost start = strip_decimal_zeros(coefficient as int, scale as nat);
            while scale > 0 && coefficient % 10 == 0
                invariant
                    strip_decimal_zeros(coefficient as int, scale as nat) == start,
                decreases scale,
            {
                coefficient = coefficient / 10;
                scale = scale - 1;
            }
            if scale == 0 {
                AnswerNode::Integer(coefficient)
            } else {
                AnswerNode::ExactDecimal { coefficient, scale }
            }
        },
        AnswerNode::NanError(raw) => AnswerNode::NanError(raw.clone()),
        AnswerNode::Fraction { numerator, denominator } => AnswerNode::Fraction {
            numerator: Box::new(normalize_answer_bounded(numerator)),
            denominator: Box::new(normalize_answer_bounded(denominator)),
        },
        AnswerNode::MixedFraction { whole, numerator, denominator } => AnswerNode::MixedFraction {
            whole: Box::new(normalize_answer_bounded(whole)),
            numerator: Box::new(normalize_answer_bounded(numerator)),
            denominator: Box::new(normalize_answer_bounded(denominator)),
        },
        AnswerNode::Root { radicand, index } => AnswerNode::Root {
            radicand: Box::new(normalize_answer_bounded(radicand)),
            index: match index {
                Some(i) => Some(Box::new(normalize_answer_bounded(i))),
                None => None,
            },
        },
        AnswerNode::Negative(value) => {
            let normalized = normalize_answer_bounded(value);
            match normalized {
                AnswerNode::Integer(v) => if v == i64::MIN {
                    AnswerNode::Negative(Box::new(AnswerNode::Integer(v)))
                } else {
                    AnswerNode::Integer(-v)
                },
                AnswerNode::Negative(inner) => *inner,
                other => AnswerNode::Negative(Box::new(other)),
            }
        },
        AnswerNode::PlusMinus(value) => {
            let normalized = normalize_answer_bounded(value);
            match normalized {
                AnswerNode::PlusMinus(inner) => AnswerNode::PlusMinus(inner),
                other => AnswerNode::PlusMinus(Box::new(other)),
            }
        },
        AnswerNode::Binary { operator, left, right } => {
            let l = normalize_answer_bounded(left);
            let r = normalize_answer_bounded(right);
            binary_simplify(*operator, l, r)
        },
        AnswerNode::Tuple(items) => {
            let ghost tv = view_nodes(items@, items@.len());
            proof {
                lemma_view_nodes(items@, items@.len());
                lemma_normal_seq(tv, tv.len());
            }
            let mut out: Vec<AnswerNode> = Vec::new();
            let mut i: usize = 0;
            while i < items.len()
                invariant
                    i <= items.len(),
                    *answer == AnswerNode::Tuple(*items),
                    tv == view_nodes(items@, items@.len()),
                    tv.len() == items@.len(),
                    forall|j: int| 0 <= j < tv.len() ==> #[trigger] tv[j] == items@[j]@,
                    out@.len() == i,
                    forall|j: int| 0 <= j < i ==> #[trigger] out@[j]@ == normal(tv[j]),
                decreases items.len() - i,
            {
                proof {
                    let ghost v = *items;
                    assert(decreases_to!(*answer => (*answer)->Tuple_0));
                    assert(decreases_to!(v => v@));
                    assert(decreases_to!(v@ => v@[i as int]));
                    assert(tv[i as int] == items@[i as int]@);
                }
                let n = normalize_answer_bounded(&items[i]);
                out.push(n);
                i += 1;
            }
            proof {
                lemma_tuple_view_eq(out@, normal_seq(tv, tv.len()));
            }
            AnswerNode::Tuple(out)
        },
        AnswerNode::Variable(name) => AnswerNode::Variable(name.clone()),
    }
}

/// Canonical tree of an answer; trees beyond the structural node budget
/// normalize to the `answer_ast_size_limit` error node without recursion.
pub fn normalize_answer(answer: &AnswerNode) -> (r: AnswerNode)
    ensures
        r@ == normalized(answer@),
{
    if !answer.is_within_structural_node_limit() {
        return AnswerNode::NanError("answer_ast_size_limit".to_owned());
    }
    normalize_answer_bounded(answer)
}

} // verus!
