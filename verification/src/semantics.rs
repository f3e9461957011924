//! Exact mathematical semantics for generated problems: whether a canonical
//! answer actually solves its prompt. Generators may construct candidates in
//! any way; this module decides independently.

use vstd::prelude::*;
use crate::answer::{AnswerBinaryOperator, AnswerNode, AnswerValue};
use crate::exact::{abs_int, abs_u128, checked_pow10_i128, in_i128, pow10, rat, ExactRational};
use crate::exact_value::{rational_from_answer, rational_value};
use crate::model::{
    coefficient_new, mask_says_liar, statement_true, AnswerSchema, ArithmeticExpression, ArithmeticOperator, LiarStatement,
    MiniSudokuGrid, PeopleCount, ProblemPrompt, QuadraticEquationForm, RationalCoefficient,
};
use crate::normalize::in_i64;
use crate::answer::answers_equal;
use crate::theme::ThemeAnswerContract;
use crate::solutions::{lemma_views_of_tuple, solution_set, solutions_of, views};

verus! {

/// The exact value of a coefficient.
pub open spec fn coefficient_rational(c: RationalCoefficient) -> Option<ExactRational> {
    ExactRational::spec_new(c@.0 as int, c@.1 as int)
}

pub open spec fn apply_operator(operator: ArithmeticOperator, l: ExactRational, r: ExactRational) -> Option<
    ExactRational,
> {
    match operator {
        ArithmeticOperator::Add => l.spec_add(r),
        ArithmeticOperator::Subtract => l.spec_subtract(r),
        ArithmeticOperator::Multiply => l.spec_multiply(r),
        ArithmeticOperator::Divide => l.spec_divide(r),
    }
}

/// The exact value of an arithmetic expression, when every step stays in
/// range and no division is by zero.
pub open spec fn expression_rational(e: ArithmeticExpression) -> Option<ExactRational>
    decreases e,
{
    match e {
        ArithmeticExpression::Integer { value } => Some(ExactRational::spec_from_integer(value as int)),
        ArithmeticExpression::Rational { value } => coefficient_rational(value),
        ArithmeticExpression::ExactDecimal { coefficient, scale } => if pow10(scale as nat) > i128::MAX {
            None
        } else {
            ExactRational::spec_new(coefficient as int, pow10(scale as nat))
        },
        ArithmeticExpression::Binary { operator, left, right } => match (
            expression_rational(*left),
            expression_rational(*right),
        ) {
            (Some(l), Some(r)) => apply_operator(operator, l, r),
            _ => None,
        },
    }
}

/// An exact value as a coefficient, when both parts fit `i64`.
pub open spec fn rational_coefficient(v: ExactRational) -> Option<(i64, i64)> {
    if in_i64(v.numerator as int) && in_i64(v.denominator as int) {
        coefficient_new(v.numerator as int, v.denominator as int)
    } else {
        None
    }
}

pub open spec fn evaluated(e: ArithmeticExpression) -> Option<(i64, i64)> {
    match expression_rational(e) {
        Some(v) => rational_coefficient(v),
        None => None,
    }
}

fn rational_from_coefficient(value: RationalCoefficient) -> (r: Option<ExactRational>)
    ensures
        r == coefficient_rational(value),
{
    ExactRational::new(value.numerator() as i128, value.denominator() as i128)
}

fn apply_operator_exec(operator: ArithmeticOperator, l: ExactRational, r: ExactRational) -> (v: Option<
    ExactRational,
>)
    ensures
        v == apply_operator(operator, l, r),
{
    match operator {
        ArithmeticOperator::Add => l.add(r),
        ArithmeticOperator::Subtract => l.subtract(r),
        ArithmeticOperator::Multiply => l.multiply(r),
        ArithmeticOperator::Divide => l.divide(r),
    }
}

fn rational_from_expression(expression: &ArithmeticExpression) -> (r: Option<ExactRational>)
    ensures
        r == expression_rational(*expression),
    decreases expression,
{
    match expression {
        ArithmeticExpression::Integer { value } => Some(ExactRational::from_integer(*value)),
        ArithmeticExpression::Rational { value } => rational_from_coefficient(*value),
        ArithmeticExpression::ExactDecimal { coefficient, scale } => match checked_pow10_i128(*scale) {
            Some(p) => ExactRational::new(*coefficient as i128, p),
            None => None,
        },
        ArithmeticExpression::Binary { operator, left, right } => {
            let l = match rational_from_expression(left) {
                Some(l) => l,
                None => return None,
            };
            let r = match rational_from_expression(right) {
                Some(r) => r,
                None => return None,
            };
            apply_operator_exec(*operator, l, r)
        },
    }
}

fn rational_to_coefficient(value: ExactRational) -> (r: Option<RationalCoefficient>)
    ensures
        match r {
            Some(c) => rational_coefficient(value) == Some(c@),
            None => rational_coefficient(value) is None,
        },
{
    let n = value.numerator();
    let d = value.denominator();
    if n < i64::MIN as i128 || n > i64::MAX as i128 || d < i64::MIN as i128 || d > i64::MAX as i128 {
        return None;
    }
    RationalCoefficient::new(n as i64, d as i64)
}

/// The exact value of an expression as a coefficient.
pub fn evaluate_expression(expression: &ArithmeticExpression) -> (r: Option<RationalCoefficient>)
    ensures
        match r {
            Some(c) => evaluated(*expression) == Some(c@),
            None => evaluated(*expression) is None,
        },
{
    match rational_from_expression(expression) {
        Some(v) => rational_to_coefficient(v),
        None => None,
    }
}

/// Integer division with remainder: a pair `(q, r)` with `0 <= r < divisor`
/// and `dividend == divisor * q + r`, computed in `i128`.
pub open spec fn integer_division_correct(expression: ArithmeticExpression, answer: AnswerValue) -> bool {
    match expression {
        ArithmeticExpression::Binary { operator: ArithmeticOperator::Divide, left, right } => match (
            expression_rational(*left),
            expression_rational(*right),
        ) {
            (Some(dividend), Some(divisor)) => dividend.denominator == 1 && divisor.denominator == 1
                && divisor.numerator > 0 && match answer {
                AnswerValue::Tuple(vs) => vs.len() == 2 && match (rational_value(vs[0]), rational_value(vs[1])) {
                    (Some(q), Some(r)) => q.denominator == 1 && r.denominator == 1 && 0 <= r.numerator
                        < divisor.numerator && in_i128(divisor.numerator * q.numerator) && in_i128(
                        divisor.numerator * q.numerator + r.numerator,
                    ) && dividend.numerator == divisor.numerator * q.numerator + r.numerator,
                    _ => false,
                },
                _ => false,
            },
            _ => false,
        },
        _ => false,
    }
}

fn arithmetic_integer_division_answer_is_correct(expression: &ArithmeticExpression, answer: &AnswerNode) -> (r:
    bool)
    ensures
        r == integer_division_correct(*expression, answer@),
{
    let (left, right) = match expression {
        ArithmeticExpression::Binary { operator: ArithmeticOperator::Divide, left, right } => (left, right),
        _ => return false,
    };
    let (dividend, divisor) = match (rational_from_expression(left), rational_from_expression(right)) {
        (Some(a), Some(b)) => (a, b),
        _ => return false,
    };
    if !dividend.is_integer() || !divisor.is_integer() || divisor.numerator() <= 0 {
        return false;
    }
    let values = match answer {
        AnswerNode::Tuple(values) => values,
        _ => return false,
    };
    proof {
        lemma_views_of_tuple(values@);
    }
    if values.len() != 2 {
        return false;
    }
    let (quotient, remainder) = match (rational_from_answer(&values[0]), rational_from_answer(&values[1])) {
        (Some(q), Some(r)) => (q, r),
        _ => return false,
    };
    if !quotient.is_integer() || !remainder.is_integer() {
        return false;
    }
    let divisor_value = divisor.numerator();
    let quotient_value = quotient.numerator();
    let remainder_value = remainder.numerator();
    if !(remainder_value >= 0 && remainder_value < divisor_value) {
        return false;
    }
    match divisor_value.checked_mul(quotient_value) {
        Some(p) => match p.checked_add(remainder_value) {
            Some(total) => dividend.numerator() == total,
            None => false,
        },
        None => false,
    }
}


pub open spec fn opt_add(a: Option<ExactRational>, b: ExactRational) -> Option<ExactRational> {
    match a {
        Some(x) => x.spec_add(b),
        None => None,
    }
}

/// `a * x + b`.
pub open spec fn affine(a: ExactRational, x: ExactRational, b: ExactRational) -> Option<ExactRational> {
    opt_add(a.spec_multiply(x), b)
}

/// `a * x + b * y`.
pub open spec fn linear_combination(a: ExactRational, x: ExactRational, b: ExactRational, y: ExactRational) -> Option<
    ExactRational,
> {
    match (a.spec_multiply(x), b.spec_multiply(y)) {
        (Some(ax), Some(by)) => ax.spec_add(by),
        _ => None,
    }
}

/// A column calculation: quotient and remainder for integer division
/// sheets, otherwise the exact value of the operation.
pub open spec fn column_correct(
    division_with_remainder: bool,
    operator: ArithmeticOperator,
    left: ArithmeticExpression,
    right: ArithmeticExpression,
    answer: AnswerValue,
) -> bool {
    match (expression_rational(left), expression_rational(right)) {
        (Some(l), Some(r)) => if division_with_remainder {
            operator == ArithmeticOperator::Divide && l.denominator == 1 && r.denominator == 1 && match answer {
                AnswerValue::Tuple(vs) => vs.len() == 2 && r.numerator != 0 && match (
                    rational_value(vs[0]),
                    rational_value(vs[1]),
                ) {
                    (Some(q), Some(rem)) => q.denominator == 1 && rem.denominator == 1 && rem.numerator >= 0
                        && abs_int(rem.numerator as int) < abs_int(r.numerator as int) && opt_add(
                        r.spec_multiply(q),
                        rem,
                    ) == Some(l),
                    _ => false,
                },
                _ => false,
            }
        } else {
            match apply_operator(operator, l, r) {
                Some(e) => rational_value(answer) == Some(e),
                None => false,
            }
        },
        _ => false,
    }
}

fn column_answer_is_correct(
    division_with_remainder: bool,
    operator: ArithmeticOperator,
    left: &ArithmeticExpression,
    right: &ArithmeticExpression,
    answer: &AnswerNode,
) -> (r: bool)
    ensures
        r == column_correct(division_with_remainder, operator, *left, *right, answer@),
{
    let l = match rational_from_expression(left) {
        Some(l) => l,
        None => return false,
    };
    let r = match rational_from_expression(right) {
        Some(r) => r,
        None => return false,
    };
    if division_with_remainder {
        if operator != ArithmeticOperator::Divide || !l.is_integer() || !r.is_integer() {
            return false;
        }
        let values = match answer {
            AnswerNode::Tuple(values) => values,
            _ => return false,
        };
        proof {
            lemma_views_of_tuple(values@);
        }
        if values.len() != 2 || r.is_zero() {
            return false;
        }
        let (quotient, remainder) = match (rational_from_answer(&values[0]), rational_from_answer(&values[1])) {
            (Some(q), Some(rem)) => (q, rem),
            _ => return false,
        };
        if !quotient.is_integer() || !remainder.is_integer() || remainder.numerator() < 0 {
            return false;
        }
        if abs_u128(remainder.numerator()) >= abs_u128(r.numerator()) {
            return false;
        }
        let reconstructed = match r.multiply(quotient) {
            Some(p) => p.add(remainder),
            None => None,
        };
        return match reconstructed {
            Some(v) => v == l,
            None => false,
        };
    }
    match apply_operator_exec(operator, l, r) {
        Some(expected) => match rational_from_answer(answer) {
            Some(actual) => actual == expected,
            None => false,
        },
        None => false,
    }
}

/// `a x + b = c x + d` holds at the answer, and the equation has one
/// solution (`a != c`).
pub open spec fn linear_correct(
    a: RationalCoefficient,
    b: RationalCoefficient,
    c: RationalCoefficient,
    d: RationalCoefficient,
    answer: AnswerValue,
) -> bool {
    match (
        rational_value(answer),
        coefficient_rational(a),
        coefficient_rational(b),
        coefficient_rational(c),
        coefficient_rational(d),
    ) {
        (Some(x), Some(a), Some(b), Some(c), Some(d)) => a != c && match (affine(a, x, b), affine(c, x, d)) {
            (Some(left), Some(right)) => left == right,
            _ => false,
        },
        _ => false,
    }
}

fn affine_exec(a: ExactRational, x: ExactRational, b: ExactRational) -> (r: Option<ExactRational>)
    ensures
        r == affine(a, x, b),
{
    match a.multiply(x) {
        Some(ax) => ax.add(b),
        None => None,
    }
}

fn linear_answer_is_correct(
    a: RationalCoefficient,
    b: RationalCoefficient,
    c: RationalCoefficient,
    d: RationalCoefficient,
    answer: &AnswerNode,
) -> (r: bool)
    ensures
        r == linear_correct(a, b, c, d, answer@),
{
    let x = match rational_from_answer(answer) {
        Some(x) => x,
        None => return false,
    };
    let (a, b, c, d) = match (
        rational_from_coefficient(a),
        rational_from_coefficient(b),
        rational_from_coefficient(c),
        rational_from_coefficient(d),
    ) {
        (Some(a), Some(b), Some(c), Some(d)) => (a, b, c, d),
        _ => return false,
    };
    if a == c {
        return false;
    }
    let left = match affine_exec(a, x, b) {
        Some(v) => v,
        None => return false,
    };
    let right = match affine_exec(c, x, d) {
        Some(v) => v,
        None => return false,
    };
    left == right
}

/// `a x + b y = c` and `d x + e y = f` hold at the answer pair, and the
/// system has one solution (nonzero determinant).
pub open spec fn simultaneous_correct(a: i64, b: i64, c: i64, d: i64, e: i64, f: i64, answer: AnswerValue) -> bool {
    let ra = ExactRational::spec_from_integer(a as int);
    let rb = ExactRational::spec_from_integer(b as int);
    let rc = ExactRational::spec_from_integer(c as int);
    let rd = ExactRational::spec_from_integer(d as int);
    let re = ExactRational::spec_from_integer(e as int);
    let rf = ExactRational::spec_from_integer(f as int);
    match answer {
        AnswerValue::Tuple(vs) => vs.len() == 2 && match (rational_value(vs[0]), rational_value(vs[1])) {
            (Some(x), Some(y)) => match (ra.spec_multiply(re), rb.spec_multiply(rd)) {
                (Some(ae), Some(bd)) => match ae.spec_subtract(bd) {
                    Some(det) => det.numerator != 0 && linear_combination(ra, x, rb, y) == Some(rc)
                        && linear_combination(rd, x, re, y) == Some(rf),
                    None => false,
                },
                _ => false,
            },
            _ => false,
        },
        _ => false,
    }
}

fn linear_combination_exec(a: ExactRational, x: ExactRational, b: ExactRational, y: ExactRational) -> (r: Option<
    ExactRational,
>)
    ensures
        r == linear_combination(a, x, b, y),
{
    match (a.multiply(x), b.multiply(y)) {
        (Some(ax), Some(by)) => ax.add(by),
        _ => None,
    }
}

fn simultaneous_answer_is_correct(a: i64, b: i64, c: i64, d: i64, e: i64, f: i64, answer: &AnswerNode) -> (r: bool)
    ensures
        r == simultaneous_correct(a, b, c, d, e, f, answer@),
{
    let values = match answer {
        AnswerNode::Tuple(values) => values,
        _ => return false,
    };
    proof {
        lemma_views_of_tuple(values@);
    }
    if values.len() != 2 {
        return false;
    }
    let (x, y) = match (rational_from_answer(&values[0]), rational_from_answer(&values[1])) {
        (Some(x), Some(y)) => (x, y),
        _ => return false,
    };
    let ra = ExactRational::from_integer(a);
    let rb = ExactRational::from_integer(b);
    let rc = ExactRational::from_integer(c);
    let rd = ExactRational::from_integer(d);
    let re = ExactRational::from_integer(e);
    let rf = ExactRational::from_integer(f);
    let determinant = match (ra.multiply(re), rb.multiply(rd)) {
        (Some(ae), Some(bd)) => ae.subtract(bd),
        _ => None,
    };
    let determinant = match determinant {
        Some(v) => v,
        None => return false,
    };
    if determinant.is_zero() {
        return false;
    }
    let first = linear_combination_exec(ra, x, rb, y);
    let second = linear_combination_exec(rd, x, re, y);
    match (first, second) {
        (Some(p), Some(q)) => p == rc && q == rf,
        _ => false,
    }
}


/// Speaker `i` lies when bit `i` of the mask is set.
pub open spec fn speaker_lies(mask: u32, i: int) -> bool {
    ((mask >> (i as u32)) & 1u32) == 1u32
}

/// Every speaker's statement is true exactly when the speaker tells the
/// truth.
pub open spec fn liar_consistent(statements: Seq<LiarStatement>, mask: u32) -> bool {
    forall|i: int| 0 <= i < statements.len() ==> #[trigger] statement_true(statements[i], mask) == !speaker_lies(mask, i)
}

/// The liar masks of `people` people.
pub open spec fn mask_limit(people: u8) -> u32 {
    1u32 << (people as u32)
}

/// Speaker `i` (counted from zero) is person `i + 1` of the statements, and
/// a mask below the limit of `people` people makes no one beyond them a
/// liar.
pub proof fn lemma_speakers_are_people(mask: u32, i: u8, people: u8)
    requires
        i < 32,
        people < 32,
    ensures
        speaker_lies(mask, i as int) <==> mask_says_liar(mask, (i + 1) as u8),
        mask < mask_limit(people) && people <= i ==> !speaker_lies(mask, i as int),
{
    let k = i as u32;
    let n = people as u32;
    assert(((i + 1) as u8 - 1) as u32 == k);
    assert(mask < (1u32 << n) && n <= k && k < 32 ==> ((mask >> k) & 1u32) != 1u32) by (bit_vector);
}

/// The consistent liar masks of a puzzle, in increasing order.
pub fn liar_solutions(people_count: PeopleCount, statements: &[LiarStatement]) -> (r: Vec<u32>)
    requires
        statements@.len() <= 32,
    ensures
        forall|m: u32| r@.contains(m) <==> (m < mask_limit(people_count@) && liar_consistent(statements@, m)),
        forall|i: int, j: int| 0 <= i < j < r@.len() ==> r@[i] < r@[j],
{
    let people = people_count.value();
    let limit: u32 = 1u32 << (people as u32);
    let mut solutions: Vec<u32> = Vec::new();
    let mut mask: u32 = 0;
    while mask < limit
        invariant
            limit == mask_limit(people_count@),
            mask <= limit,
            statements@.len() <= 32,
            forall|m: u32| solutions@.contains(m) <==> (m < mask && liar_consistent(statements@, m)),
            forall|i: int, j: int| 0 <= i < j < solutions@.len() ==> solutions@[i] < solutions@[j],
            forall|i: int| 0 <= i < solutions@.len() ==> solutions@[i] < mask,
        decreases limit - mask,
    {
        let mut valid = true;
        let mut speaker: usize = 0;
        while speaker < statements.len()
            invariant
                speaker <= statements@.len(),
                statements@.len() <= 32,
                valid == (forall|i: int| 0 <= i < speaker ==> #[trigger] statement_true(statements@[i], mask) == !speaker_lies(mask, i)),
            decreases statements@.len() - speaker,
        {
            let speaker_is_liar = ((mask >> (speaker as u32)) & 1) == 1;
            let truthful = statements[speaker].is_true_for_mask(mask) == !speaker_is_liar;
            proof {
                assert(speaker_is_liar == speaker_lies(mask, speaker as int));
            }
            valid = valid && truthful;
            speaker += 1;
        }
        assert(valid == liar_consistent(statements@, mask));
        let ghost before = solutions@;
        if valid {
            solutions.push(mask);
        }
        proof {
            assert forall|m: u32| solutions@.contains(m) <==> (m < mask + 1 && liar_consistent(statements@, m)) by {
                if valid {
                    assert(solutions@ == before.push(mask));
                    if m == mask {
                        assert(solutions@[solutions@.len() - 1] == m);
                    } else if solutions@.contains(m) {
                        let k = choose|k: int| 0 <= k < solutions@.len() && solutions@[k] == m;
                        assert(before[k] == m);
                    } else if before.contains(m) {
                        let k = choose|k: int| 0 <= k < before.len() && before[k] == m;
                        assert(solutions@[k] == m);
                    }
                }
            }
        }
        mask += 1;
    }
    solutions
}

/// The liar mask named by a list of people (numbered from one), or `None`
/// at an item that names no person; `Some(None)` where the list is not a
/// mask. People beyond the 32 mask bits are outside the domain.
pub open spec fn mask_fold(vs: Seq<AnswerValue>, k: nat, m: u32) -> Option<Option<u32>>
    decreases vs.len() - k,
{
    if k >= vs.len() {
        Some(Some(m))
    } else {
        match vs[k as int] {
            AnswerValue::Integer(p) => if p < 1 || p > u32::MAX {
                Some(None)
            } else if p > 32 {
                None
            } else {
                mask_fold(vs, k + 1, m | (1u32 << ((p - 1) as u32)))
            },
            _ => Some(None),
        }
    }
}

/// An answer that the liar check can read without leaving the 32 mask bits.
pub open spec fn liar_answer_in_domain(answer: AnswerValue) -> bool {
    match answer {
        AnswerValue::Tuple(vs) => mask_fold(vs, 0, 0) is Some,
        _ => true,
    }
}

/// The puzzle has exactly one consistent liar mask, and the answer names it.
pub open spec fn liar_correct(people: u8, statements: Seq<LiarStatement>, answer: AnswerValue) -> bool {
    match answer {
        AnswerValue::Tuple(vs) => match mask_fold(vs, 0, 0) {
            Some(Some(m)) => m < mask_limit(people) && liar_consistent(statements, m) && forall|other: u32|
                other < mask_limit(people) && liar_consistent(statements, other) ==> other == m,
            _ => false,
        },
        _ => false,
    }
}

fn liar_answer_is_correct(people_count: PeopleCount, statements: &[LiarStatement], answer: &AnswerNode) -> (r: bool)
    requires
        statements@.len() <= 32,
        liar_answer_in_domain(answer@),
    ensures
        r == liar_correct(people_count@, statements@, answer@),
{
    let values = match answer {
        AnswerNode::Tuple(values) => values,
        _ => return false,
    };
    proof {
        lemma_views_of_tuple(values@);
    }
    let ghost vs = views(values@);
    let mut mask: u32 = 0;
    let mut i: usize = 0;
    while i < values.len()
        invariant
            vs == views(values@),
            answer@ == AnswerValue::Tuple(vs),
            i <= values@.len(),
            mask_fold(vs, 0, 0) == mask_fold(vs, i as nat, mask),
            mask_fold(vs, 0, 0) is Some,
        decreases values@.len() - i,
    {
        assert(vs[i as int] == values@[i as int]@);
        let person = match &values[i] {
            AnswerNode::Integer(p) => *p,
            _ => return false,
        };
        if person < 1 || person > u32::MAX as i64 {
            return false;
        }
        let bit = (person - 1) as u32;
        mask = mask | (1u32 << bit);
        i += 1;
    }
    let solutions = liar_solutions(people_count, statements);
    if solutions.len() != 1 {
        proof {
            if mask < mask_limit(people_count@) && liar_consistent(statements@, mask) {
                assert(solutions@.contains(mask));
                if solutions@.len() > 1 {
                    let a = solutions@[0];
                    let b = solutions@[1];
                    assert(solutions@.contains(a) && solutions@.contains(b));
                    assert(a != b);
                }
            }
        }
        return false;
    }
    proof {
        assert(solutions@.contains(solutions@[0]));
        if mask < mask_limit(people_count@) && liar_consistent(statements@, mask) {
            assert(solutions@.contains(mask));
        }
        assert forall|other: u32| other < mask_limit(people_count@) && liar_consistent(statements@, other) implies other
            == solutions@[0] by {
            assert(solutions@.contains(other));
        }
    }
    solutions[0] == mask
}


/// Whether `digit` may go in cell `index` of a four-by-four board: it is not
/// yet in the cell's row, column or two-by-two block.
pub open spec fn can_place(b: Seq<u8>, index: int, digit: u8) -> bool {
    let r = (index / 4) * 4;
    let c = index % 4;
    let br = ((index / 4) / 2) * 8;
    let bc = (c / 2) * 2;
    &&& b[r] != digit && b[r + 1] != digit && b[r + 2] != digit && b[r + 3] != digit
    &&& b[c] != digit && b[c + 4] != digit && b[c + 8] != digit && b[c + 12] != digit
    &&& b[br + bc] != digit && b[br + bc + 1] != digit && b[br + bc + 4] != digit && b[br + bc + 5] != digit
}

fn mini_sudoku_can_place(board: &[u8; 16], index: usize, digit: u8) -> (r: bool)
    requires
        index < 16,
    ensures
        r == can_place(board@, index as int, digit),
{
    let r = (index / 4) * 4;
    let c = index % 4;
    let br = ((index / 4) / 2) * 8;
    let bc = (c / 2) * 2;
    if board[r] == digit || board[r + 1] == digit || board[r + 2] == digit || board[r + 3] == digit {
        return false;
    }
    if board[c] == digit || board[c + 4] == digit || board[c + 8] == digit || board[c + 12] == digit {
        return false;
    }
    !(board[br + bc] == digit || board[br + bc + 1] == digit || board[br + bc + 4] == digit || board[br + bc + 5]
        == digit)
}

/// A filled cell holds a digit from one to four that its row, column and
/// block do not repeat.
pub open spec fn cell_consistent(b: Seq<u8>, i: int) -> bool {
    b[i] == 0 || (1 <= b[i] <= 4 && can_place(b.update(i, 0), i, b[i]))
}

pub open spec fn board_consistent(b: Seq<u8>) -> bool {
    forall|i: int| 0 <= i < 16 ==> #[trigger] cell_consistent(b, i)
}

fn mini_sudoku_board_is_consistent(board: &[u8; 16]) -> (r: bool)
    ensures
        r == board_consistent(board@),
{
    let mut index: usize = 0;
    while index < 16
        invariant
            index <= 16,
            forall|i: int| 0 <= i < index ==> #[trigger] cell_consistent(board@, i),
        decreases 16 - index,
    {
        let digit = board[index];
        if digit != 0 {
            if digit < 1 || digit > 4 {
                proof {
                    assert(!cell_consistent(board@, index as int));
                }
                return false;
            }
            let mut without_current = *board;
            without_current[index] = 0;
            if !mini_sudoku_can_place(&without_current, index, digit) {
                proof {
                    assert(!cell_consistent(board@, index as int));
                }
                return false;
            }
        }
        index += 1;
    }
    true
}

/// The first empty cell at or after `start`.
pub open spec fn first_empty(b: Seq<u8>, start: nat) -> Option<nat>
    decreases 16 - start,
{
    if start >= 16 {
        None
    } else if b[start as int] == 0 {
        Some(start)
    } else {
        first_empty(b, start + 1)
    }
}

pub proof fn lemma_first_empty(b: Seq<u8>, start: nat)
    ensures
        first_empty(b, start) matches Some(i) ==> start <= i < 16 && b[i as int] == 0 && forall|j: int|
            start <= j < i ==> #[trigger] b[j] != 0,
        first_empty(b, start) is None ==> forall|j: int| start <= j < 16 ==> b[j] != 0,
    decreases 16 - start,
{
    if start < 16 && b[start as int] != 0 {
        lemma_first_empty(b, start + 1);
    }
}

/// Every completion of the board that fills the empty cells from `start`
/// on, in depth-first order: the first empty cell takes the digits one to
/// four in turn.
pub open spec fn all_solutions(b: Seq<u8>, start: nat) -> Seq<Seq<u8>>
    decreases 16 - start, 6nat,
{
    proof {
        lemma_first_empty(b, start);
    }
    match first_empty(b, start) {
        None => seq![b],
        Some(i) => solutions_from_digit(b, i, 1),
    }
}

pub open spec fn solutions_from_digit(b: Seq<u8>, i: nat, d: nat) -> Seq<Seq<u8>>
    decreases 16 - i, 5 - d,
{
    if d > 4 || i >= 16 {
        Seq::empty()
    } else {
        (if can_place(b, i as int, d as u8) {
            all_solutions(b.update(i as int, d as u8), i + 1)
        } else {
            Seq::empty()
        }) + solutions_from_digit(b, i, d + 1)
    }
}

/// `before` extended by the items of `all` until it holds `limit` items.
pub open spec fn extend_to_limit(before: Seq<Seq<u8>>, all: Seq<Seq<u8>>, limit: nat) -> Seq<Seq<u8>> {
    if before.len() >= limit {
        before
    } else if before.len() + all.len() <= limit {
        before + all
    } else {
        before + all.take(limit - before.len())
    }
}

pub proof fn lemma_extend_twice(b: Seq<Seq<u8>>, x: Seq<Seq<u8>>, y: Seq<Seq<u8>>, limit: nat)
    ensures
        extend_to_limit(extend_to_limit(b, x, limit), y, limit) == extend_to_limit(b, x + y, limit),
{
    if b.len() < limit {
        if b.len() + x.len() <= limit {
            assert(b + x + y =~= b + (x + y));
            if b.len() + x.len() + y.len() > limit {
                assert((b + x) + y.take(limit - (b + x).len()) =~= b + (x + y).take(limit - b.len()));
            }
        } else {
            assert((x + y).take(limit - b.len()) =~= x.take(limit - b.len()));
        }
    }
}

pub open spec fn board_views(v: Seq<[u8; 16]>) -> Seq<Seq<u8>> {
    v.map_values(|a: [u8; 16]| a@)
}

fn enumerate_mini_sudoku_solutions(board: [u8; 16], start: usize, solutions: &mut Vec<[u8; 16]>, limit: usize)
    requires
        start <= 16,
    ensures
        board_views(final(solutions)@) == extend_to_limit(
            board_views(old(solutions)@),
            all_solutions(board@, start as nat),
            limit as nat,
        ),
    decreases 16 - start, 1nat,
{
    if solutions.len() >= limit {
        return;
    }
    proof {
        lemma_first_empty(board@, start as nat);
    }
    let mut index = start;
    while index < 16 && board[index] != 0
        invariant
            start <= index <= 16,
            first_empty(board@, start as nat) == first_empty(board@, index as nat),
        decreases 16 - index,
    {
        index += 1;
    }
    if index == 16 {
        proof {
            assert(board_views(solutions@.push(board)) =~= board_views(solutions@) + seq![board@]);
        }
        solutions.push(board);
        return;
    }
    let ghost target = extend_to_limit(board_views(old(solutions)@), all_solutions(board@, start as nat), limit as nat);
    assert(solutions@ == old(solutions)@);
    let ghost original = board@;
    let mut cells = board;
    let mut digit: u8 = 1;
    while digit <= 4
        invariant
            start <= index < 16,
            1 <= digit <= 5,
            cells@ == original,
            original == board@,
            original[index as int] == 0,
            target == extend_to_limit(board_views(old(solutions)@), all_solutions(board@, start as nat), limit as nat),
            target == extend_to_limit(
                board_views(solutions@),
                solutions_from_digit(original, index as nat, digit as nat),
                limit as nat,
            ),
        decreases 5 - digit,
    {
        let ghost current = board_views(solutions@);
        if mini_sudoku_can_place(&cells, index, digit) {
            cells[index] = digit;
            enumerate_mini_sudoku_solutions(cells, index + 1, solutions, limit);
            cells[index] = 0;
            proof {
                assert(cells@ =~= original);
                lemma_extend_twice(
                    current,
                    all_solutions(original.update(index as int, digit), index as nat + 1),
                    solutions_from_digit(original, index as nat, digit as nat + 1),
                    limit as nat,
                );
            }
            if solutions.len() >= limit {
                assert(board_views(solutions@).len() == solutions@.len());
                assert(target == extend_to_limit(
                    board_views(solutions@),
                    solutions_from_digit(original, index as nat, digit as nat + 1),
                    limit as nat,
                ));
                assert(target == board_views(solutions@));
                return;
            }
        } else {
            proof {
                assert(Seq::<Seq<u8>>::empty() + solutions_from_digit(original, index as nat, digit as nat + 1)
                    =~= solutions_from_digit(original, index as nat, digit as nat + 1));
            }
        }
        digit += 1;
    }
    proof {
        assert(board_views(solutions@) + Seq::<Seq<u8>>::empty() =~= board_views(solutions@));
    }
}


/// Cell `j` shares a row, a column or a two-by-two block with cell `i`
/// (each cell with itself too): the cells that `can_place` looks at.
pub open spec fn sudoku_peer(i: int, j: int) -> bool {
    let r = (i / 4) * 4;
    let c = i % 4;
    let br = ((i / 4) / 2) * 8;
    let bc = (c / 2) * 2;
    ||| j == r || j == r + 1 || j == r + 2 || j == r + 3
    ||| j == c || j == c + 4 || j == c + 8 || j == c + 12
    ||| j == br + bc || j == br + bc + 1 || j == br + bc + 4 || j == br + bc + 5
}

proof fn lemma_peer_symmetric(i: int, j: int)
    requires
        0 <= i < 16,
        0 <= j < 16,
        sudoku_peer(i, j),
    ensures
        sudoku_peer(j, i),
{
}

proof fn lemma_can_place_peers(b: Seq<u8>, i: int, d: u8)
    requires
        b.len() == 16,
        0 <= i < 16,
    ensures
        can_place(b, i, d) <==> forall|j: int| 0 <= j < 16 && sudoku_peer(i, j) ==> #[trigger] b[j] != d,
{
}

/// `s` is a full, valid grid that keeps every given of `b`.
pub open spec fn is_completion(b: Seq<u8>, s: Seq<u8>) -> bool {
    &&& s.len() == 16
    &&& board_consistent(s)
    &&& forall|j: int| 0 <= j < 16 ==> #[trigger] s[j] != 0
    &&& forall|j: int| 0 <= j < 16 && b[j] != 0 ==> #[trigger] s[j] == b[j]
}

/// Placing a digit where `can_place` allows keeps a consistent board
/// consistent.
proof fn lemma_place_keeps_consistent(b: Seq<u8>, i: int, d: u8)
    requires
        b.len() == 16,
        board_consistent(b),
        0 <= i < 16,
        b[i] == 0,
        1 <= d <= 4,
        can_place(b, i, d),
    ensures
        board_consistent(b.update(i, d)),
{
    let nb = b.update(i, d);
    assert(nb.update(i, 0) =~= b);
    assert forall|j: int| 0 <= j < 16 implies #[trigger] cell_consistent(nb, j) by {
        if j != i && b[j] != 0 {
            assert(cell_consistent(b, j));
            let before = b.update(j, 0);
            let after = nb.update(j, 0);
            lemma_can_place_peers(before, j, b[j]);
            lemma_can_place_peers(after, j, b[j]);
            lemma_can_place_peers(b, i, d);
            assert forall|p: int| 0 <= p < 16 && sudoku_peer(j, p) implies #[trigger] after[p] != b[j] by {
                if p == i {
                    lemma_peer_symmetric(j, i);
                    assert(b[j] != d);
                } else if p != j {
                    assert(before[p] != b[j]);
                }
            }
        }
    }
}

proof fn lemma_search_sound(b: Seq<u8>, start: nat)
    requires
        b.len() == 16,
        board_consistent(b),
        start <= 16,
        forall|j: int| 0 <= j < start ==> #[trigger] b[j] != 0,
    ensures
        forall|k: int| 0 <= k < all_solutions(b, start).len() ==> is_completion(b, #[trigger] all_solutions(b, start)[k]),
    decreases 16 - start, 6nat,
{
    lemma_first_empty(b, start);
    match first_empty(b, start) {
        None => {
            assert forall|j: int| 0 <= j < 16 implies #[trigger] b[j] != 0 by {
                if j < start {
                    assert(b[j] != 0);
                }
            }
            assert(all_solutions(b, start) =~= seq![b]);
            assert(is_completion(b, b));
            assert forall|k: int| 0 <= k < all_solutions(b, start).len() implies is_completion(
                b,
                #[trigger] all_solutions(b, start)[k],
            ) by {
                assert(all_solutions(b, start)[k] == b);
            }
        },
        Some(i) => {
            assert forall|j: int| 0 <= j < i implies #[trigger] b[j] != 0 by {
                if j < start {
                    assert(b[j] != 0);
                }
            }
            lemma_digit_search_sound(b, i, 1);
            assert(all_solutions(b, start) == solutions_from_digit(b, i, 1));
        },
    }
}

proof fn lemma_digit_search_sound(b: Seq<u8>, i: nat, d: nat)
    requires
        b.len() == 16,
        board_consistent(b),
        i < 16,
        b[i as int] == 0,
        forall|j: int| 0 <= j < i ==> #[trigger] b[j] != 0,
        d >= 1,
    ensures
        forall|k: int| 0 <= k < solutions_from_digit(b, i, d).len() ==> is_completion(
            b,
            #[trigger] solutions_from_digit(b, i, d)[k],
        ),
    decreases 16 - i, 5 - d,
{
    if d <= 4 {
        let here: Seq<Seq<u8>> = if can_place(b, i as int, d as u8) {
            all_solutions(b.update(i as int, d as u8), i + 1)
        } else {
            Seq::empty()
        };
        lemma_digit_search_sound(b, i, d + 1);
        let rest = solutions_from_digit(b, i, d + 1);
        if can_place(b, i as int, d as u8) {
            let nb = b.update(i as int, d as u8);
            lemma_place_keeps_consistent(b, i as int, d as u8);
            assert forall|j: int| 0 <= j < i + 1 implies #[trigger] nb[j] != 0 by {
                if j < i {
                    assert(b[j] != 0);
                }
            }
            lemma_search_sound(nb, i + 1);
            assert forall|k: int| 0 <= k < here.len() implies is_completion(b, #[trigger] here[k]) by {
                let sol = here[k];
                assert(is_completion(nb, sol));
                assert forall|j: int| 0 <= j < 16 && b[j] != 0 implies #[trigger] sol[j] == b[j] by {
                    assert(nb[j] == b[j]);
                }
            }
        }
        assert(solutions_from_digit(b, i, d) == here + rest);
        assert forall|k: int| 0 <= k < (here + rest).len() implies is_completion(b, #[trigger] (here + rest)[k]) by {
            if k < here.len() {
                assert((here + rest)[k] == here[k]);
            } else {
                assert((here + rest)[k] == rest[k - here.len()]);
            }
        }
    }
}

proof fn lemma_search_complete(b: Seq<u8>, start: nat, s: Seq<u8>)
    requires
        b.len() == 16,
        start <= 16,
        forall|j: int| 0 <= j < start ==> #[trigger] b[j] != 0,
        is_completion(b, s),
    ensures
        all_solutions(b, start).contains(s),
    decreases 16 - start, 6nat,
{
    lemma_first_empty(b, start);
    match first_empty(b, start) {
        None => {
            assert forall|j: int| 0 <= j < 16 implies s[j] == b[j] by {
                if j < start {
                    assert(b[j] != 0);
                }
            }
            assert(s =~= b);
            assert(all_solutions(b, start)[0] == b);
        },
        Some(i) => {
            let d = s[i as int];
            assert(cell_consistent(s, i as int));
            assert(s[i as int] != 0);
            let su = s.update(i as int, 0);
            lemma_can_place_peers(su, i as int, d);
            lemma_can_place_peers(b, i as int, d);
            assert forall|j: int| 0 <= j < 16 && sudoku_peer(i as int, j) implies #[trigger] b[j] != d by {
                if j != i && b[j] != 0 {
                    assert(s[j] == b[j]);
                    assert(su[j] != d);
                }
            }
            let nb = b.update(i as int, d);
            assert forall|j: int| 0 <= j < i + 1 implies #[trigger] nb[j] != 0 by {
                if j < start {
                    assert(b[j] != 0);
                } else if j < i {
                    assert(b[j] != 0);
                }
            }
            assert forall|j: int| 0 <= j < 16 && nb[j] != 0 implies #[trigger] s[j] == nb[j] by {
                if j != i {
                    assert(nb[j] == b[j]);
                }
            }
            lemma_search_complete(nb, i + 1, s);
            lemma_digit_search_complete(b, i, 1, s);
        },
    }
}

proof fn lemma_digit_search_complete(b: Seq<u8>, i: nat, d: nat, s: Seq<u8>)
    requires
        b.len() == 16,
        i < 16,
        1 <= d <= s[i as int] <= 4,
        can_place(b, i as int, s[i as int]),
        all_solutions(b.update(i as int, s[i as int]), i + 1).contains(s),
    ensures
        solutions_from_digit(b, i, d).contains(s),
    decreases 5 - d,
{
    let here: Seq<Seq<u8>> = if can_place(b, i as int, d as u8) {
        all_solutions(b.update(i as int, d as u8), i + 1)
    } else {
        Seq::empty()
    };
    let rest = solutions_from_digit(b, i, d + 1);
    assert(solutions_from_digit(b, i, d) == here + rest);
    if d == s[i as int] {
        let k = choose|k: int| 0 <= k < here.len() && here[k] == s;
        assert((here + rest)[k] == s);
    } else {
        lemma_digit_search_complete(b, i, d + 1, s);
        let k = choose|k: int| 0 <= k < rest.len() && rest[k] == s;
        assert((here + rest)[here.len() + k] == s);
    }
}

/// The mini-sudoku search is exact: for a board that keeps the rules, the
/// grids it enumerates are exactly the full, valid grids that keep its
/// givens.
pub proof fn lemma_mini_sudoku_search_exact(b: Seq<u8>, s: Seq<u8>)
    requires
        b.len() == 16,
        board_consistent(b),
    ensures
        all_solutions(b, 0).contains(s) <==> is_completion(b, s),
{
    lemma_search_sound(b, 0);
    if is_completion(b, s) {
        lemma_search_complete(b, 0, s);
    }
}

/// What the search gives for a board: nothing for a board that breaks a
/// rule, otherwise its first `limit` completions.
pub open spec fn search_result(b: Seq<u8>, limit: nat) -> Seq<Seq<u8>> {
    if board_consistent(b) {
        extend_to_limit(Seq::empty(), all_solutions(b, 0), limit)
    } else {
        Seq::empty()
    }
}

/// Every grid the search returns is a full, valid grid that keeps the
/// board's givens, and the search returns the first grids in the order it
/// enumerates them.
pub proof fn lemma_search_results_are_completions(b: Seq<u8>, limit: nat)
    requires
        b.len() == 16,
    ensures
        forall|k: int| 0 <= k < search_result(b, limit).len() ==> is_completion(b, #[trigger] search_result(b, limit)[k]),
        board_consistent(b) ==> search_result(b, limit).len() == if all_solutions(b, 0).len() <= limit {
            all_solutions(b, 0).len()
        } else {
            limit
        },
{
    if board_consistent(b) {
        let all = all_solutions(b, 0);
        assert forall|k: int| 0 <= k < search_result(b, limit).len() implies is_completion(
            b,
            #[trigger] search_result(b, limit)[k],
        ) by {
            assert(search_result(b, limit)[k] == all[k]);
            lemma_mini_sudoku_search_exact(b, all[k]);
            assert(all.contains(all[k]));
        }
    }
}

/// Up to `limit` completions of a four-by-four board (zero marks an empty
/// cell), in depth-first order; none where a filled cell breaks a rule.
pub fn mini_sudoku_solutions(board: [u8; 16], limit: usize) -> (r: Vec<[u8; 16]>)
    ensures
        board_views(r@) == search_result(board@, limit as nat),
{
    let mut solutions: Vec<[u8; 16]> = Vec::new();
    if !mini_sudoku_board_is_consistent(&board) {
        proof {
            assert(board_views(solutions@) =~= Seq::<Seq<u8>>::empty());
        }
        return solutions;
    }
    proof {
        assert(board_views(solutions@) =~= Seq::<Seq<u8>>::empty());
    }
    enumerate_mini_sudoku_solutions(board, 0, &mut solutions, limit);
    solutions
}

/// The board of the givens, zero where a cell is open.
pub open spec fn givens_board(g: Seq<Option<u8>>) -> Seq<u8> {
    Seq::new(16, |i: int| match g[i] {
        Some(d) => d,
        None => 0u8,
    })
}

/// The digit that an answer item names for a cell, where it is a digit
/// from one to four that agrees with the given of that cell.
pub open spec fn answer_digit(v: AnswerValue, given: Option<u8>) -> Option<u8> {
    match v {
        AnswerValue::Integer(d) => if 1 <= d <= 4 && (given matches Some(g) ==> g == d) {
            Some(d as u8)
        } else {
            None
        },
        _ => None,
    }
}

/// The board that an answer fills in: sixteen cells, each a digit that
/// keeps the givens.
pub open spec fn answer_board(vs: Seq<AnswerValue>, g: Seq<Option<u8>>) -> Option<Seq<u8>> {
    if vs.len() == 16 && forall|i: int| 0 <= i < 16 ==> #[trigger] answer_digit(vs[i], g[i]) is Some {
        Some(Seq::new(16, |i: int| answer_digit(vs[i], g[i])->0))
    } else {
        None
    }
}

/// The givens have exactly one completion, and the answer fills it in.
pub open spec fn mini_sudoku_correct(g: Seq<Option<u8>>, answer: AnswerValue) -> bool {
    match answer {
        AnswerValue::Tuple(vs) => match answer_board(vs, g) {
            Some(solved) => {
                let found = search_result(givens_board(g), 2);
                found.len() == 1 && found[0] == solved
            },
            None => false,
        },
        _ => false,
    }
}

fn mini_sudoku_answer_is_correct(givens: &MiniSudokuGrid, answer: &AnswerNode) -> (r: bool)
    ensures
        r == mini_sudoku_correct(givens@, answer@),
{
    proof {
        givens.lemma_cells();
    }
    let values = match answer {
        AnswerNode::Tuple(values) => values,
        _ => return false,
    };
    proof {
        lemma_views_of_tuple(values@);
    }
    let ghost vs = views(values@);
    if values.len() != 16 {
        return false;
    }
    let mut solved = [0u8; 16];
    let mut index: usize = 0;
    while index < 16
        invariant
            vs == views(values@),
            answer@ == AnswerValue::Tuple(vs),
            values@.len() == 16,
            givens@.len() == 16,
            index <= 16,
            solved@.len() == 16,
            forall|i: int| 0 <= i < index ==> (#[trigger] answer_digit(vs[i], givens@[i]) matches Some(d) && solved@[i] == d),
        decreases 16 - index,
    {
        assert(vs[index as int] == values@[index as int]@);
        let digit = match &values[index] {
            AnswerNode::Integer(d) => *d,
            _ => {
                proof {
                    assert(answer_digit(vs[index as int], givens@[index as int]) is None);
                }
                return false;
            },
        };
        if digit < 1 || digit > 4 {
            proof {
                assert(answer_digit(vs[index as int], givens@[index as int]) is None);
            }
            return false;
        }
        let digit = digit as u8;
        match givens.cell(index) {
            Some(given) => if given != digit {
                proof {
                    assert(answer_digit(vs[index as int], givens@[index as int]) is None);
                }
                return false;
            },
            None => {},
        }
        solved[index] = digit;
        index += 1;
    }
    let mut board = [0u8; 16];
    let mut k: usize = 0;
    while k < 16
        invariant
            k <= 16,
            givens@.len() == 16,
            board@.len() == 16,
            forall|i: int| 0 <= i < k ==> board@[i] == #[trigger] givens_board(givens@)[i],
        decreases 16 - k,
    {
        board[k] = match givens.cell(k) {
            Some(d) => d,
            None => 0,
        };
        k += 1;
    }
    proof {
        assert(board@ =~= givens_board(givens@));
        assert(solved@ =~= Seq::new(16, |i: int| answer_digit(vs[i], givens@[i])->0));
    }
    let found = mini_sudoku_solutions(board, 2);
    if found.len() != 1 {
        return false;
    }
    proof {
        assert(board_views(found@)[0] == found@[0]@);
    }
    boards_equal(&found[0], &solved)
}

fn boards_equal(a: &[u8; 16], b: &[u8; 16]) -> (r: bool)
    ensures
        r == (a@ == b@),
{
    let mut i: usize = 0;
    while i < 16
        invariant
            i <= 16,
            a@.len() == 16,
            b@.len() == 16,
            forall|j: int| 0 <= j < i ==> a@[j] == b@[j],
        decreases 16 - i,
    {
        if a[i] != b[i] {
            return false;
        }
        i += 1;
    }
    proof {
        assert(a@ =~= b@);
    }
    true
}


/// A number `rational + radical_coefficient * sqrt(radicand)`; the radicand
/// is `None` exactly when the coefficient is zero.
#[derive(Clone, Copy, Debug, PartialEq, Eq, Structural)]
pub struct QuadraticNumber {
    pub rational: ExactRational,
    pub radical_coefficient: ExactRational,
    pub radicand: Option<ExactRational>,
}

impl QuadraticNumber {
    pub open spec fn spec_rational(value: ExactRational) -> QuadraticNumber {
        QuadraticNumber { rational: value, radical_coefficient: rat(0, 1), radicand: None }
    }

    pub open spec fn spec_normalized(self) -> QuadraticNumber {
        if self.radical_coefficient.numerator == 0 {
            QuadraticNumber { radicand: None, ..self }
        } else {
            self
        }
    }

    /// The radicand that a sum or product of the two numbers keeps, or
    /// `None` where they hold different roots.
    pub open spec fn spec_compatible_radicand(self, other: Self) -> Option<Option<ExactRational>> {
        let l = self.radical_coefficient.numerator != 0;
        let r = other.radical_coefficient.numerator != 0;
        if !l && !r {
            Some(None)
        } else if l && !r {
            Some(self.radicand)
        } else if !l && r {
            Some(other.radicand)
        } else if self.radicand == other.radicand {
            Some(self.radicand)
        } else {
            None
        }
    }

    pub open spec fn spec_add(self, other: Self) -> Option<QuadraticNumber> {
        match (
            self.rational.spec_add(other.rational),
            self.radical_coefficient.spec_add(other.radical_coefficient),
            self.spec_compatible_radicand(other),
        ) {
            (Some(q), Some(k), Some(r)) => Some(
                QuadraticNumber { rational: q, radical_coefficient: k, radicand: r }.spec_normalized(),
            ),
            _ => None,
        }
    }

    pub open spec fn spec_negate(self) -> Option<QuadraticNumber> {
        match (self.rational.spec_negate(), self.radical_coefficient.spec_negate()) {
            (Some(q), Some(k)) => Some(
                QuadraticNumber { rational: q, radical_coefficient: k, radicand: self.radicand }.spec_normalized(),
            ),
            _ => None,
        }
    }

    pub open spec fn spec_subtract(self, other: Self) -> Option<QuadraticNumber> {
        match other.spec_negate() {
            Some(n) => self.spec_add(n),
            None => None,
        }
    }

    /// `(p + k sqrt r)(p' + k' sqrt r) = pp' + kk'r + (pk' + kp') sqrt r`.
    pub open spec fn spec_multiply(self, other: Self) -> Option<QuadraticNumber> {
        match self.spec_compatible_radicand(other) {
            None => None,
            Some(radicand) => {
                let square = match radicand {
                    Some(r) => match self.radical_coefficient.spec_multiply(other.radical_coefficient) {
                        Some(kk) => kk.spec_multiply(r),
                        None => None,
                    },
                    None => Some(rat(0, 1)),
                };
                let cross = match (
                    self.rational.spec_multiply(other.radical_coefficient),
                    self.radical_coefficient.spec_multiply(other.rational),
                ) {
                    (Some(x), Some(y)) => x.spec_add(y),
                    _ => None,
                };
                match (self.rational.spec_multiply(other.rational), square, cross) {
                    (Some(pp), Some(sq), Some(k)) => match pp.spec_add(sq) {
                        Some(q) => Some(
                            QuadraticNumber { rational: q, radical_coefficient: k, radicand }.spec_normalized(),
                        ),
                        None => None,
                    },
                    _ => None,
                }
            },
        }
    }

    pub open spec fn spec_multiply_rational(self, scalar: ExactRational) -> Option<QuadraticNumber> {
        match (self.rational.spec_multiply(scalar), self.radical_coefficient.spec_multiply(scalar)) {
            (Some(q), Some(k)) => Some(
                QuadraticNumber { rational: q, radical_coefficient: k, radicand: self.radicand }.spec_normalized(),
            ),
            _ => None,
        }
    }

    pub open spec fn spec_divide_rational(self, scalar: ExactRational) -> Option<QuadraticNumber> {
        match (self.rational.spec_divide(scalar), self.radical_coefficient.spec_divide(scalar)) {
            (Some(q), Some(k)) => Some(
                QuadraticNumber { rational: q, radical_coefficient: k, radicand: self.radicand }.spec_normalized(),
            ),
            _ => None,
        }
    }

    pub open spec fn spec_is_zero(self) -> bool {
        self.rational.numerator == 0 && self.radical_coefficient.numerator == 0
    }

    fn rational_number(value: ExactRational) -> (r: Self)
        ensures
            r == Self::spec_rational(value),
    {
        Self { rational: value, radical_coefficient: ExactRational::zero(), radicand: None }
    }

    fn normalized(self) -> (r: Self)
        ensures
            r == self.spec_normalized(),
    {
        if self.radical_coefficient.is_zero() {
            Self { radicand: None, ..self }
        } else {
            self
        }
    }

    fn compatible_radicand(self, other: Self) -> (r: Option<Option<ExactRational>>)
        ensures
            r == self.spec_compatible_radicand(other),
    {
        let l = !self.radical_coefficient.is_zero();
        let r = !other.radical_coefficient.is_zero();
        if !l && !r {
            Some(None)
        } else if l && !r {
            Some(self.radicand)
        } else if !l && r {
            Some(other.radicand)
        } else if self.radicand == other.radicand {
            Some(self.radicand)
        } else {
            None
        }
    }

    fn add(self, other: Self) -> (r: Option<Self>)
        ensures
            r == self.spec_add(other),
    {
        let q = match self.rational.add(other.rational) {
            Some(q) => q,
            None => return None,
        };
        let k = match self.radical_coefficient.add(other.radical_coefficient) {
            Some(k) => k,
            None => return None,
        };
        let radicand = match self.compatible_radicand(other) {
            Some(r) => r,
            None => return None,
        };
        Some(Self { rational: q, radical_coefficient: k, radicand }.normalized())
    }

    fn negate(self) -> (r: Option<Self>)
        ensures
            r == self.spec_negate(),
    {
        let q = match self.rational.negate() {
            Some(q) => q,
            None => return None,
        };
        let k = match self.radical_coefficient.negate() {
            Some(k) => k,
            None => return None,
        };
        Some(Self { rational: q, radical_coefficient: k, radicand: self.radicand }.normalized())
    }

    fn subtract(self, other: Self) -> (r: Option<Self>)
        ensures
            r == self.spec_subtract(other),
    {
        match other.negate() {
            Some(n) => self.add(n),
            None => None,
        }
    }

    fn multiply(self, other: Self) -> (r: Option<Self>)
        ensures
            r == self.spec_multiply(other),
    {
        let radicand = match self.compatible_radicand(other) {
            Some(r) => r,
            None => return None,
        };
        let rational_product = match self.rational.multiply(other.rational) {
            Some(p) => p,
            None => return None,
        };
        let radical_square = match radicand {
            Some(r) => match self.radical_coefficient.multiply(other.radical_coefficient) {
                Some(kk) => match kk.multiply(r) {
                    Some(v) => v,
                    None => return None,
                },
                None => return None,
            },
            None => ExactRational::zero(),
        };
        let x = match self.rational.multiply(other.radical_coefficient) {
            Some(x) => x,
            None => return None,
        };
        let y = match self.radical_coefficient.multiply(other.rational) {
            Some(y) => y,
            None => return None,
        };
        let k = match x.add(y) {
            Some(k) => k,
            None => return None,
        };
        let q = match rational_product.add(radical_square) {
            Some(q) => q,
            None => return None,
        };
        Some(Self { rational: q, radical_coefficient: k, radicand }.normalized())
    }

    fn multiply_rational(self, scalar: ExactRational) -> (r: Option<Self>)
        ensures
            r == self.spec_multiply_rational(scalar),
    {
        let q = match self.rational.multiply(scalar) {
            Some(q) => q,
            None => return None,
        };
        let k = match self.radical_coefficient.multiply(scalar) {
            Some(k) => k,
            None => return None,
        };
        Some(Self { rational: q, radical_coefficient: k, radicand: self.radicand }.normalized())
    }

    fn divide_rational(self, scalar: ExactRational) -> (r: Option<Self>)
        ensures
            r == self.spec_divide_rational(scalar),
    {
        let q = match self.rational.divide(scalar) {
            Some(q) => q,
            None => return None,
        };
        let k = match self.radical_coefficient.divide(scalar) {
            Some(k) => k,
            None => return None,
        };
        Some(Self { rational: q, radical_coefficient: k, radicand: self.radicand }.normalized())
    }

    fn is_zero(self) -> (r: bool)
        ensures
            r == self.spec_is_zero(),
    {
        self.rational.is_zero() && self.radical_coefficient.is_zero()
    }
}

/// The value of an answer built from rationals, square roots of positive
/// rationals, negation, division by a rational, `+`, `-` and `*`.
pub open spec fn quadratic_value(v: AnswerValue) -> Option<QuadraticNumber>
    decreases v,
{
    match rational_value(v) {
        Some(q) => Some(QuadraticNumber::spec_rational(q)),
        None => match v {
            AnswerValue::Root { radicand, index } => {
                let index_ok = match index {
                    Some(i) => rational_value(*i) == Some(rat(2, 1)),
                    None => true,
                };
                match rational_value(*radicand) {
                    Some(r) => if index_ok && r.numerator > 0 {
                        Some(QuadraticNumber { rational: rat(0, 1), radical_coefficient: rat(1, 1), radicand: Some(r) })
                    } else {
                        None
                    },
                    None => None,
                }
            },
            AnswerValue::Negative(inner) => match quadratic_value(*inner) {
                Some(x) => x.spec_negate(),
                None => None,
            },
            AnswerValue::Fraction { numerator, denominator } => match (
                quadratic_value(*numerator),
                quadratic_value(*denominator),
            ) {
                (Some(n), Some(d)) => if d.radical_coefficient.numerator != 0 || d.rational.numerator == 0 {
                    None
                } else {
                    n.spec_divide_rational(d.rational)
                },
                _ => None,
            },
            AnswerValue::Binary { operator, left, right } => match (quadratic_value(*left), quadratic_value(*right)) {
                (Some(l), Some(r)) => match operator {
                    AnswerBinaryOperator::Add => l.spec_add(r),
                    AnswerBinaryOperator::Subtract => l.spec_subtract(r),
                    AnswerBinaryOperator::Multiply => l.spec_multiply(r),
                },
                _ => None,
            },
            _ => None,
        },
    }
}

fn quadratic_from_answer(answer: &AnswerNode) -> (r: Option<QuadraticNumber>)
    ensures
        r == quadratic_value(answer@),
    decreases answer,
{
    match rational_from_answer(answer) {
        Some(value) => return Some(QuadraticNumber::rational_number(value)),
        None => {},
    }
    match answer {
        AnswerNode::Root { radicand, index } => {
            match index {
                Some(i) => {
                    match rational_from_answer(i) {
                        Some(v) => if v != rat_two() {
                            return None;
                        },
                        None => return None,
                    }
                },
                None => {},
            }
            let r = match rational_from_answer(radicand) {
                Some(r) => r,
                None => return None,
            };
            if r.numerator <= 0 {
                return None;
            }
            Some(QuadraticNumber { rational: ExactRational::zero(), radical_coefficient: ExactRational::one(), radicand: Some(r) })
        },
        AnswerNode::Negative(inner) => match quadratic_from_answer(inner) {
            Some(x) => x.negate(),
            None => None,
        },
        AnswerNode::Fraction { numerator, denominator } => {
            let n = match quadratic_from_answer(numerator) {
                Some(n) => n,
                None => return None,
            };
            let d = match quadratic_from_answer(denominator) {
                Some(d) => d,
                None => return None,
            };
            if !d.radical_coefficient.is_zero() || d.rational.is_zero() {
                return None;
            }
            n.divide_rational(d.rational)
        },
        AnswerNode::Binary { operator, left, right } => {
            let l = match quadratic_from_answer(left) {
                Some(l) => l,
                None => return None,
            };
            let r = match quadratic_from_answer(right) {
                Some(r) => r,
                None => return None,
            };
            match operator {
                AnswerBinaryOperator::Add => l.add(r),
                AnswerBinaryOperator::Subtract => l.subtract(r),
                AnswerBinaryOperator::Multiply => l.multiply(r),
            }
        },
        _ => None,
    }
}

fn rat_two() -> (r: ExactRational)
    ensures
        r == rat(2, 1),
{
    ExactRational { numerator: 2, denominator: 1 }
}


/// The leading, linear and constant coefficients of `ax^2 + bx + c = 0` that
/// a quadratic prompt stands for.
pub open spec fn quadratic_terms(
    form: QuadraticEquationForm,
    a: ExactRational,
    b: ExactRational,
    c: ExactRational,
) -> Option<(ExactRational, ExactRational, ExactRational)> {
    match form {
        QuadraticEquationForm::SquareEqualsConstant => match c.spec_negate() {
            Some(n) => Some((a, rat(0, 1), n)),
            None => None,
        },
        QuadraticEquationForm::SquarePlusConstantZero => Some((a, rat(0, 1), c)),
        QuadraticEquationForm::FactoredScale => if a.numerator == 0 {
            None
        } else {
            Some((rat(1, 1), b, c))
        },
        QuadraticEquationForm::Standard => Some((a, b, c)),
    }
}

/// `b^2 - 4ac`.
pub open spec fn discriminant(a: ExactRational, b: ExactRational, c: ExactRational) -> Option<ExactRational> {
    match (b.spec_multiply(b), a.spec_multiply(c)) {
        (Some(square), Some(product)) => match rat(4, 1).spec_multiply(product) {
            Some(four_ac) => square.spec_subtract(four_ac),
            None => None,
        },
        _ => None,
    }
}

/// `a x^2 + b x + c`.
pub open spec fn quadratic_residual(
    x: QuadraticNumber,
    a: ExactRational,
    b: ExactRational,
    c: ExactRational,
) -> Option<QuadraticNumber> {
    match x.spec_multiply(x) {
        Some(square) => match (square.spec_multiply_rational(a), x.spec_multiply_rational(b)) {
            (Some(quadratic_term), Some(linear_term)) => match quadratic_term.spec_add(linear_term) {
                Some(v) => v.spec_add(QuadraticNumber::spec_rational(c)),
                None => None,
            },
            _ => None,
        },
        None => None,
    }
}

/// The answer lists, without repeats, as many solutions as the equation has
/// real roots, and each makes the equation hold exactly.
pub open spec fn quadratic_correct(
    form: QuadraticEquationForm,
    a: RationalCoefficient,
    b: RationalCoefficient,
    c: RationalCoefficient,
    answer: AnswerValue,
) -> bool {
    match (coefficient_rational(a), coefficient_rational(b), coefficient_rational(c)) {
        (Some(a), Some(b), Some(c)) => match quadratic_terms(form, a, b, c) {
            Some((l, m, k)) => l.numerator != 0 && match discriminant(l, m, k) {
                Some(d) => d.numerator >= 0 && match solutions_of(answer) {
                    Some(sols) => {
                        &&& sols.len() == (if d.numerator == 0 { 1int } else { 2int })
                        &&& forall|i: int| 0 <= i < sols.len() - 1 ==> #[trigger] sols[i] != sols[i + 1]
                        &&& forall|i: int| 0 <= i < sols.len() ==> (#[trigger] quadratic_value(sols[i])
                            matches Some(x) && quadratic_residual(x, l, m, k) matches Some(v) && v.spec_is_zero())
                    },
                    None => false,
                },
                None => false,
            },
            None => false,
        },
        _ => false,
    }
}

fn quadratic_terms_exec(
    form: QuadraticEquationForm,
    a: ExactRational,
    b: ExactRational,
    c: ExactRational,
) -> (r: Option<(ExactRational, ExactRational, ExactRational)>)
    ensures
        r == quadratic_terms(form, a, b, c),
{
    match form {
        QuadraticEquationForm::SquareEqualsConstant => match c.negate() {
            Some(n) => Some((a, ExactRational::zero(), n)),
            None => None,
        },
        QuadraticEquationForm::SquarePlusConstantZero => Some((a, ExactRational::zero(), c)),
        QuadraticEquationForm::FactoredScale => if a.is_zero() {
            None
        } else {
            Some((ExactRational::one(), b, c))
        },
        QuadraticEquationForm::Standard => Some((a, b, c)),
    }
}

fn discriminant_exec(a: ExactRational, b: ExactRational, c: ExactRational) -> (r: Option<ExactRational>)
    ensures
        r == discriminant(a, b, c),
{
    let square = match b.multiply(b) {
        Some(v) => v,
        None => return None,
    };
    let product = match a.multiply(c) {
        Some(v) => v,
        None => return None,
    };
    let four = ExactRational { numerator: 4, denominator: 1 };
    match four.multiply(product) {
        Some(four_ac) => square.subtract(four_ac),
        None => None,
    }
}

/// Whether `x` is an exact root of `a x^2 + b x + c`.
fn is_quadratic_root(x: QuadraticNumber, a: ExactRational, b: ExactRational, c: ExactRational) -> (r: bool)
    ensures
        r == (quadratic_residual(x, a, b, c) matches Some(v) && v.spec_is_zero()),
{
    let square = match x.multiply(x) {
        Some(v) => v,
        None => return false,
    };
    let quadratic_term = match square.multiply_rational(a) {
        Some(v) => v,
        None => return false,
    };
    let linear_term = match x.multiply_rational(b) {
        Some(v) => v,
        None => return false,
    };
    let partial = match quadratic_term.add(linear_term) {
        Some(v) => v,
        None => return false,
    };
    match partial.add(QuadraticNumber::rational_number(c)) {
        Some(value) => value.is_zero(),
        None => false,
    }
}

/// Whether every listed solution is an exact root of `a x^2 + b x + c`.
fn all_quadratic_roots(solutions: &Vec<AnswerNode>, a: ExactRational, b: ExactRational, c: ExactRational) -> (r: bool)
    ensures
        r == (forall|j: int| 0 <= j < solutions@.len() ==> (#[trigger] quadratic_value(views(solutions@)[j])
            matches Some(x) && quadratic_residual(x, a, b, c) matches Some(v) && v.spec_is_zero())),
{
    let ghost sols = views(solutions@);
    let mut k: usize = 0;
    while k < solutions.len()
        invariant
            sols == views(solutions@),
            k <= solutions@.len(),
            forall|j: int| 0 <= j < k ==> (#[trigger] quadratic_value(sols[j]) matches Some(x)
                && quadratic_residual(x, a, b, c) matches Some(v) && v.spec_is_zero()),
        decreases solutions@.len() - k,
    {
        assert(sols[k as int] == solutions@[k as int]@);
        let holds = match quadratic_from_answer(&solutions[k]) {
            Some(x) => is_quadratic_root(x, a, b, c),
            None => false,
        };
        if !holds {
            return false;
        }
        k += 1;
    }
    true
}

/// Whether no two neighbouring solutions are equal.
fn neighbours_differ(solutions: &Vec<AnswerNode>) -> (r: bool)
    ensures
        r == (forall|j: int| 0 <= j < solutions@.len() - 1 ==> #[trigger] views(solutions@)[j] != views(
            solutions@,
        )[j + 1]),
{
    let ghost sols = views(solutions@);
    let mut i: usize = 1;
    while i < solutions.len()
        invariant
            sols == views(solutions@),
            1 <= i,
            i <= solutions@.len() || solutions@.len() == 0,
            forall|j: int| 0 <= j < i - 1 ==> #[trigger] sols[j] != sols[j + 1],
        decreases solutions@.len() - i,
    {
        if answers_equal(&solutions[i - 1], &solutions[i]) {
            proof {
                assert(sols[i - 1] == sols[(i - 1) + 1]);
            }
            return false;
        }
        i += 1;
    }
    true
}

fn quadratic_answer_is_correct(
    form: QuadraticEquationForm,
    a: RationalCoefficient,
    b: RationalCoefficient,
    c: RationalCoefficient,
    answer: &AnswerNode,
) -> (r: bool)
    ensures
        r == quadratic_correct(form, a, b, c, answer@),
{
    let (a, b, c) = match (rational_from_coefficient(a), rational_from_coefficient(b), rational_from_coefficient(c)) {
        (Some(a), Some(b), Some(c)) => (a, b, c),
        _ => return false,
    };
    let (leading, linear, constant) = match quadratic_terms_exec(form, a, b, c) {
        Some(t) => t,
        None => return false,
    };
    if leading.is_zero() {
        return false;
    }
    let disc = match discriminant_exec(leading, linear, constant) {
        Some(v) => v,
        None => return false,
    };
    if disc.numerator < 0 {
        return false;
    }
    let expected_roots: usize = if disc.numerator == 0 { 1 } else { 2 };
    let solutions = match solution_set(answer) {
        Some(s) => s,
        None => return false,
    };
    if solutions.len() != expected_roots {
        return false;
    }
    neighbours_differ(&solutions) && all_quadratic_roots(&solutions, leading, linear, constant)
}


/// Inputs the check can read without a shift past the 32 bits of a liar
/// mask: a liar puzzle has at most 32 statements, and a liar answer names
/// people from one to 32.
pub open spec fn prompt_answer_in_domain(prompt: ProblemPrompt, answer: AnswerValue) -> bool {
    match prompt {
        ProblemPrompt::LiarPuzzle { statements, .. } => statements@.len() <= 32 && liar_answer_in_domain(answer),
        _ => true,
    }
}

/// Integer division with remainder is asked for by the column division
/// contract, or by a schema of ordered pairs.
pub open spec fn asks_quotient_and_remainder(contract: ThemeAnswerContract, schema: AnswerSchema) -> bool {
    contract == ThemeAnswerContract::ColumnIntegerDivision || schema == AnswerSchema::OrderedPair
}

/// Whether `answer` solves `prompt` exactly.
pub open spec fn prompt_accepts(
    contract: ThemeAnswerContract,
    prompt: ProblemPrompt,
    schema: AnswerSchema,
    answer: AnswerValue,
) -> bool {
    match prompt {
        ProblemPrompt::Addition { left, right } => rational_value(answer) == ExactRational::spec_new(
            left + right,
            1,
        ),
        ProblemPrompt::Arithmetic { expression } => if schema == AnswerSchema::OrderedPair {
            integer_division_correct(expression, answer)
        } else {
            match expression_rational(expression) {
                Some(e) => rational_value(answer) == Some(e),
                None => false,
            }
        },
        ProblemPrompt::ColumnArithmetic { operator, left, right } => column_correct(
            asks_quotient_and_remainder(contract, schema),
            operator,
            left,
            right,
            answer,
        ),
        ProblemPrompt::LinearEquation { a, b, c, d, .. } => linear_correct(a, b, c, d, answer),
        ProblemPrompt::QuadraticEquation { form, a, b, c } => quadratic_correct(form, a, b, c, answer),
        ProblemPrompt::SimultaneousEquation { a, b, c, d, e, f } => simultaneous_correct(a, b, c, d, e, f, answer),
        ProblemPrompt::LiarPuzzle { people_count, statements } => liar_correct(
            people_count@,
            statements@,
            answer,
        ),
        ProblemPrompt::MiniSudoku { givens } => mini_sudoku_correct(givens@, answer),
    }
}

/// Whether a canonical answer solves its prompt, decided from the prompt's
/// mathematics alone.
pub fn prompt_accepts_canonical_answer(
    contract: ThemeAnswerContract,
    prompt: &ProblemPrompt,
    schema: &AnswerSchema,
    answer: &AnswerNode,
) -> (r: bool)
    requires
        prompt_answer_in_domain(*prompt, answer@),
    ensures
        r == prompt_accepts(contract, *prompt, *schema, answer@),
{
    let ordered_pair = match schema {
        AnswerSchema::OrderedPair => true,
        _ => false,
    };
    match prompt {
        ProblemPrompt::Addition { left, right } => {
            let expected = ExactRational::new(*left as i128 + *right as i128, 1);
            match (rational_from_answer(answer), expected) {
                (Some(actual), Some(e)) => actual == e,
                (None, None) => true,
                _ => false,
            }
        },
        ProblemPrompt::Arithmetic { expression } => {
            if ordered_pair {
                arithmetic_integer_division_answer_is_correct(expression, answer)
            } else {
                match (rational_from_expression(expression), rational_from_answer(answer)) {
                    (Some(expected), Some(actual)) => actual == expected,
                    _ => false,
                }
            }
        },
        ProblemPrompt::ColumnArithmetic { operator, left, right } => {
            let division = match contract {
                ThemeAnswerContract::ColumnIntegerDivision => true,
                _ => ordered_pair,
            };
            column_answer_is_correct(division, *operator, left, right, answer)
        },
        ProblemPrompt::LinearEquation { a, b, c, d, .. } => linear_answer_is_correct(*a, *b, *c, *d, answer),
        ProblemPrompt::QuadraticEquation { form, a, b, c } => quadratic_answer_is_correct(*form, *a, *b, *c, answer),
        ProblemPrompt::SimultaneousEquation { a, b, c, d, e, f } => simultaneous_answer_is_correct(
            *a,
            *b,
            *c,
            *d,
            *e,
            *f,
            answer,
        ),
        ProblemPrompt::LiarPuzzle { people_count, statements } => liar_answer_is_correct(
            *people_count,
            statements.as_slice(),
            answer,
        ),
        ProblemPrompt::MiniSudoku { givens } => mini_sudoku_answer_is_correct(givens, answer),
    }
}

} // verus!
