//! Building blocks of the problem generators: expression and answer
//! constructors, exact conversions, and seeded draws.

use vstd::prelude::*;
use crate::answer::{AnswerNode, AnswerValue};
use crate::exact::{checked_pow10_i64, pow10};
use crate::model::{coefficient_new, expression_js_safe, ArithmeticExpression, ArithmeticOperator, RationalCoefficient};
use crate::rng::{bounded_draw, lemma_bounded_draw_below, DeterministicRng, MAX_REJECTED_DRAWS};
use crate::semantics::evaluated;
use crate::worked::{abs_i64, decimal_digits, lemma_decimal_digits};

verus! {

pub fn integer_expression(value: i64) -> (r: ArithmeticExpression)
    ensures
        r == (ArithmeticExpression::Integer { value }),
{
    ArithmeticExpression::Integer { value }
}

pub fn rational_expression(value: RationalCoefficient) -> (r: ArithmeticExpression)
    ensures
        r == (ArithmeticExpression::Rational { value }),
{
    ArithmeticExpression::Rational { value }
}

pub fn exact_decimal_expression(coefficient: i64, scale: u32) -> (r: ArithmeticExpression)
    ensures
        r == (ArithmeticExpression::ExactDecimal { coefficient, scale }),
{
    ArithmeticExpression::ExactDecimal { coefficient, scale }
}

pub fn binary_expression(
    operator: ArithmeticOperator,
    left: ArithmeticExpression,
    right: ArithmeticExpression,
) -> (r: ArithmeticExpression)
    ensures
        r == (ArithmeticExpression::Binary { operator, left: Box::new(left), right: Box::new(right) }),
{
    ArithmeticExpression::Binary { operator, left: Box::new(left), right: Box::new(right) }
}

/// A rational as an answer: an integer, or a fraction of two integers.
pub open spec fn rational_answer_value(value: (i64, i64)) -> AnswerValue {
    if value.1 == 1 {
        AnswerValue::Integer(value.0)
    } else {
        AnswerValue::Fraction {
            numerator: Box::new(AnswerValue::Integer(value.0)),
            denominator: Box::new(AnswerValue::Integer(value.1)),
        }
    }
}

pub fn rational_answer(value: RationalCoefficient) -> (r: AnswerNode)
    ensures
        r@ == rational_answer_value(value@),
{
    proof {
        reveal_with_fuel(crate::answer::view_node, 2);
    }
    if value.denominator() == 1 {
        AnswerNode::Integer(value.numerator())
    } else {
        AnswerNode::Fraction {
            numerator: Box::new(AnswerNode::Integer(value.numerator())),
            denominator: Box::new(AnswerNode::Integer(value.denominator())),
        }
    }
}

/// A rational of at least one as a mixed number (or an integer); other
/// values as `rational_answer_value`.
pub open spec fn mixed_number_value(value: (i64, i64)) -> AnswerValue {
    let (n, d) = value;
    if d == 1 || n < d {
        rational_answer_value(value)
    } else if n % d == 0 {
        AnswerValue::Integer((n / d) as i64)
    } else {
        AnswerValue::MixedFraction {
            whole: Box::new(AnswerValue::Integer((n / d) as i64)),
            numerator: Box::new(AnswerValue::Integer((n % d) as i64)),
            denominator: Box::new(AnswerValue::Integer(d)),
        }
    }
}

pub fn mixed_number_answer(value: RationalCoefficient) -> (r: AnswerNode)
    requires
        value@.1 > 0,
    ensures
        r@ == mixed_number_value(value@),
{
    proof {
        reveal_with_fuel(crate::answer::view_node, 2);
    }
    if value.denominator() == 1 || value.numerator() < value.denominator() {
        return rational_answer(value);
    }
    let whole = value.numerator() / value.denominator();
    let numerator = value.numerator() % value.denominator();
    if numerator == 0 {
        AnswerNode::Integer(whole)
    } else {
        AnswerNode::MixedFraction {
            whole: Box::new(AnswerNode::Integer(whole)),
            numerator: Box::new(AnswerNode::Integer(numerator)),
            denominator: Box::new(AnswerNode::Integer(value.denominator())),
        }
    }
}

/// `coefficient / 10^scale` as a reduced coefficient.
pub fn exact_decimal_rational(coefficient: i64, scale: u32) -> (r: Option<RationalCoefficient>)
    ensures
        match r {
            Some(c) => pow10(scale as nat) <= i64::MAX && coefficient_new(coefficient as int, pow10(scale as nat))
                == Some(c@),
            None => pow10(scale as nat) > i64::MAX || coefficient_new(coefficient as int, pow10(scale as nat))
                is None,
        },
{
    let denominator = match checked_pow10_i64(scale) {
        Some(d) => d,
        None => return None,
    };
    RationalCoefficient::new(coefficient, denominator)
}

/// Whether `left < right`, compared exactly by cross multiplication.
pub fn rational_less_than(left: RationalCoefficient, right: RationalCoefficient) -> (r: bool)
    ensures
        r == (left@.0 * right@.1 < right@.0 * left@.1),
{
    proof {
        assert(-0x8000_0000_0000_0000 * 0x8000_0000_0000_0000 <= left@.0 * right@.1 <= 0x8000_0000_0000_0000
            * 0x8000_0000_0000_0000) by (nonlinear_arith)
            requires
                -0x8000_0000_0000_0000 <= left@.0 < 0x8000_0000_0000_0000,
                -0x8000_0000_0000_0000 <= right@.1 < 0x8000_0000_0000_0000,
        ;
        assert(-0x8000_0000_0000_0000 * 0x8000_0000_0000_0000 <= right@.0 * left@.1 <= 0x8000_0000_0000_0000
            * 0x8000_0000_0000_0000) by (nonlinear_arith)
            requires
                -0x8000_0000_0000_0000 <= right@.0 < 0x8000_0000_0000_0000,
                -0x8000_0000_0000_0000 <= left@.1 < 0x8000_0000_0000_0000,
        ;
    }
    (left.numerator() as i128) * (right.denominator() as i128) < (right.numerator() as i128) * (
    left.denominator() as i128)
}

/// `d` with every factor two and five taken out.
pub open spec fn without_twos_and_fives(d: nat) -> nat
    decreases d,
{
    if d > 0 && d % 2 == 0 {
        without_twos_and_fives(d / 2)
    } else if d > 0 && d % 5 == 0 {
        without_twos_and_fives(d / 5)
    } else {
        d
    }
}

/// The least scale from `s` to `max_scale` whose power of ten `d` divides;
/// `None` once a power leaves `i64` first.
pub open spec fn least_decimal_scale(d: nat, s: nat, max_scale: nat) -> Option<nat>
    decreases max_scale + 1 - s,
{
    if s > max_scale || d == 0 {
        None
    } else if pow10(s) > i64::MAX {
        None
    } else if pow10(s) % (d as int) == 0 {
        Some(s)
    } else {
        least_decimal_scale(d, s + 1, max_scale)
    }
}

/// A rational as an exact decimal answer with at most `max_scale` places:
/// an integer as itself, otherwise the shortest decimal, when the
/// denominator divides a power of ten that fits `i64`.
pub open spec fn exact_decimal_answer(value: (i64, i64), max_scale: u32) -> Option<AnswerValue> {
    let (n, d) = value;
    if d == 1 {
        Some(AnswerValue::Integer(n))
    } else if without_twos_and_fives(d as nat) != 1 {
        None
    } else {
        match least_decimal_scale(d as nat, 1, max_scale as nat) {
            Some(s) => {
                let c = n * (pow10(s) / (d as int));
                if i64::MIN <= c <= i64::MAX {
                    Some(AnswerValue::ExactDecimal { coefficient: c as i64, scale: s as u32 })
                } else {
                    None
                }
            },
            None => None,
        }
    }
}

pub fn rational_to_exact_decimal_answer(value: RationalCoefficient, max_scale: u32) -> (r: Option<AnswerNode>)
    requires
        value@.1 > 0,
    ensures
        match r {
            Some(a) => exact_decimal_answer(value@, max_scale) == Some(a@),
            None => exact_decimal_answer(value@, max_scale) is None,
        },
{
    if value.is_integer() {
        return Some(AnswerNode::Integer(value.numerator()));
    }
    let mut denominator = value.denominator();
    while denominator % 2 == 0
        invariant
            denominator > 0,
            without_twos_and_fives(denominator as nat) == without_twos_and_fives(value@.1 as nat),
        decreases denominator,
    {
        denominator = denominator / 2;
    }
    while denominator % 5 == 0
        invariant
            denominator > 0,
            denominator % 2 != 0,
            without_twos_and_fives(denominator as nat) == without_twos_and_fives(value@.1 as nat),
        decreases denominator,
    {
        proof {
            assert((denominator / 5) % 2 != 0) by (nonlinear_arith)
                requires
                    denominator % 2 != 0,
                    denominator % 5 == 0,
                    denominator > 0,
            ;
        }
        denominator = denominator / 5;
    }
    if denominator != 1 {
        return None;
    }
    let mut scale: u32 = 1;
    while scale <= max_scale
        invariant
            1 <= scale,
            value@.1 > 1,
            without_twos_and_fives(value@.1 as nat) == 1,
            least_decimal_scale(value@.1 as nat, 1, max_scale as nat) == least_decimal_scale(
                value@.1 as nat,
                scale as nat,
                max_scale as nat,
            ),
        decreases max_scale + 1 - scale,
    {
        let power = match checked_pow10_i64(scale) {
            Some(p) => p,
            None => return None,
        };
        proof {
            crate::exact::lemma_pow10_positive(scale as nat);
        }
        let power_u = power as u64;
        let den_u = value.denominator() as u64;
        if power_u % den_u == 0 {
            proof {
                assert(least_decimal_scale(value@.1 as nat, scale as nat, max_scale as nat) == Some(scale as nat));
            }
            let factor = (power_u / den_u) as i64;
            let coefficient = match value.numerator().checked_mul(factor) {
                Some(c) => c,
                None => return None,
            };
            return Some(AnswerNode::ExactDecimal { coefficient, scale });
        }
        if scale == u32::MAX {
            proof {
                assert(least_decimal_scale(value@.1 as nat, scale as nat + 1, max_scale as nat) is None);
            }
            return None;
        }
        scale += 1;
    }
    None
}

/// The exact decimal of a rational as a leaf expression.
pub open spec fn exact_decimal_expression_value(value: (i64, i64), max_scale: u32) -> Option<ArithmeticExpression> {
    match exact_decimal_answer(value, max_scale) {
        Some(AnswerValue::Integer(v)) => Some(ArithmeticExpression::Integer { value: v }),
        Some(AnswerValue::ExactDecimal { coefficient, scale }) => Some(
            ArithmeticExpression::ExactDecimal { coefficient, scale },
        ),
        _ => None,
    }
}

pub fn rational_to_arithmetic_expression(value: RationalCoefficient, max_scale: u32) -> (r: Option<
    ArithmeticExpression,
>)
    requires
        value@.1 > 0,
    ensures
        r == exact_decimal_expression_value(value@, max_scale),
{
    match rational_to_exact_decimal_answer(value, max_scale) {
        Some(AnswerNode::Integer(value)) => Some(integer_expression(value)),
        Some(AnswerNode::ExactDecimal { coefficient, scale }) => Some(exact_decimal_expression(coefficient, scale)),
        _ => None,
    }
}


/// The smallest coefficient with `digits` significant digits and the count
/// of such coefficients, when both fit `i64`.
pub open spec fn coefficient_range(digits: u32) -> Option<(int, int)> {
    if digits == 0 {
        None
    } else {
        let lower = if digits == 1 { 1 } else { pow10((digits - 1) as nat) };
        let top = pow10(digits as nat);
        if lower > i64::MAX || top > i64::MAX {
            None
        } else {
            Some((lower, top - lower))
        }
    }
}

/// Draws of a coefficient from `lower` on until one does not end in zero:
/// the coefficient (`None` once `budget` more draws are exhausted, which the
/// generator's period rules out) and the state after the last draw.
pub open spec fn coefficient_draws(state: u64, lower: int, width: u64, budget: nat) -> (Option<i64>, u64)
    decreases budget,
{
    let (offset, next) = bounded_draw(state, width, MAX_REJECTED_DRAWS as nat);
    let candidate = lower + offset;
    if candidate % 10 != 0 {
        (Some(candidate as i64), next)
    } else if budget == 0 {
        (None, next)
    } else {
        coefficient_draws(next, lower, width, (budget - 1) as nat)
    }
}

/// A coefficient with exactly `digits` significant digits and no trailing
/// zero, and the state after drawing it.
pub open spec fn significant_coefficient_draw(state: u64, digits: u32) -> (Option<i64>, u64) {
    match coefficient_range(digits) {
        Some((lower, width)) => coefficient_draws(state, lower, width as u64, MAX_REJECTED_DRAWS as nat),
        None => (None, state),
    }
}

proof fn lemma_coefficient_range(digits: u32)
    ensures
        coefficient_range(digits) matches Some((lower, width)) ==> 1 <= lower && 1 <= width && lower + width
            <= i64::MAX + 1,
{
    if digits > 1 {
        crate::exact::lemma_pow10_step((digits - 1) as nat);
        crate::exact::lemma_pow10_positive((digits - 1) as nat);
    } else if digits == 1 {
        crate::exact::lemma_pow10_step(0);
        vstd::arithmetic::power::lemma_pow0(10);
    }
}

pub fn draw_decimal_coefficient_with_significant_digits(rng: &mut DeterministicRng, significant_digits: u32) -> (r:
    Option<i64>)
    ensures
        (r, final(rng)@) == significant_coefficient_draw(old(rng)@, significant_digits),
        r matches Some(c) ==> c % 10 != 0 && (coefficient_range(significant_digits) matches Some((lower, width))
            && lower <= c < lower + width),
{
    proof {
        lemma_coefficient_range(significant_digits);
    }
    if significant_digits == 0 {
        return None;
    }
    let lower: i64 = if significant_digits == 1 {
        1
    } else {
        match checked_pow10_i64(significant_digits - 1) {
            Some(v) => v,
            None => return None,
        }
    };
    let top = match checked_pow10_i64(significant_digits) {
        Some(v) => v,
        None => return None,
    };
    proof {
        if significant_digits == 1 {
            vstd::arithmetic::power::lemma_pow0(10);
        }
    }
    let width = (top - lower) as u64;
    let mut budget: u64 = MAX_REJECTED_DRAWS;
    loop
        invariant
            coefficient_range(significant_digits) == Some((lower as int, width as int)),
            1 <= lower,
            1 <= width,
            lower + width <= i64::MAX + 1,
            significant_coefficient_draw(old(rng)@, significant_digits) == coefficient_draws(
                rng@,
                lower as int,
                width,
                budget as nat,
            ),
        decreases budget,
    {
        let offset = rng.next_bounded(width);
        let candidate = lower + offset as i64;
        if candidate % 10 != 0 {
            return Some(candidate);
        }
        if budget == 0 {
            return None;
        }
        budget = budget - 1;
    }
}

/// A coefficient with one to `max_significant_digits` significant digits,
/// the count drawn first.
pub open spec fn coefficient_draw(state: u64, max_digits: u32) -> (Option<i64>, u64) {
    if max_digits == 0 {
        (None, state)
    } else {
        let (d, next) = bounded_draw(state, max_digits as u64, MAX_REJECTED_DRAWS as nat);
        significant_coefficient_draw(next, (1 + d) as u32)
    }
}

pub fn draw_decimal_coefficient(rng: &mut DeterministicRng, max_significant_digits: u32) -> (r: Option<i64>)
    ensures
        (r, final(rng)@) == coefficient_draw(old(rng)@, max_significant_digits),
{
    if max_significant_digits == 0 {
        return None;
    }
    let digits = 1 + rng.next_bounded(max_significant_digits as u64) as u32;
    draw_decimal_coefficient_with_significant_digits(rng, digits)
}

/// A decimal operand: a coefficient with `digits` significant digits, then
/// a scale from one to `max_scale`.
pub open spec fn significant_operand_draw(state: u64, digits: u32, max_scale: u32) -> (Option<(i64, u32)>, u64) {
    if max_scale == 0 {
        (None, state)
    } else {
        let (c, next) = significant_coefficient_draw(state, digits);
        match c {
            Some(c) => {
                let (s, after) = bounded_draw(next, max_scale as u64, MAX_REJECTED_DRAWS as nat);
                (Some((c, (1 + s) as u32)), after)
            },
            None => (None, next),
        }
    }
}

pub fn draw_decimal_operand_with_significant_digits(
    rng: &mut DeterministicRng,
    significant_digits: u32,
    max_scale: u32,
) -> (r: Option<(i64, u32)>)
    ensures
        (r, final(rng)@) == significant_operand_draw(old(rng)@, significant_digits, max_scale),
        r matches Some((_, scale)) ==> 1 <= scale <= max_scale,
{
    if max_scale == 0 {
        return None;
    }
    let coefficient = match draw_decimal_coefficient_with_significant_digits(rng, significant_digits) {
        Some(c) => c,
        None => return None,
    };
    let scale = 1 + rng.next_bounded(max_scale as u64) as u32;
    Some((coefficient, scale))
}

/// A decimal operand: a coefficient with one to `max_digits` significant
/// digits, then a scale from one to `max_scale`.
pub open spec fn operand_draw(state: u64, max_digits: u32, max_scale: u32) -> (Option<(i64, u32)>, u64) {
    if max_scale == 0 {
        (None, state)
    } else {
        let (c, next) = coefficient_draw(state, max_digits);
        match c {
            Some(c) => {
                let (s, after) = bounded_draw(next, max_scale as u64, MAX_REJECTED_DRAWS as nat);
                (Some((c, (1 + s) as u32)), after)
            },
            None => (None, next),
        }
    }
}

pub fn draw_decimal_operand(rng: &mut DeterministicRng, max_significant_digits: u32, max_scale: u32) -> (r: Option<
    (i64, u32),
>)
    ensures
        (r, final(rng)@) == operand_draw(old(rng)@, max_significant_digits, max_scale),
        r matches Some((_, scale)) ==> 1 <= scale <= max_scale,
{
    if max_scale == 0 {
        return None;
    }
    let coefficient = match draw_decimal_coefficient(rng, max_significant_digits) {
        Some(c) => c,
        None => return None,
    };
    let scale = 1 + rng.next_bounded(max_scale as u64) as u32;
    Some((coefficient, scale))
}

/// The number of significant digits of an integer or decimal leaf.
pub open spec fn leaf_significant_digits(e: ArithmeticExpression) -> Option<nat> {
    match e {
        ArithmeticExpression::Integer { value } => Some(decimal_digits(abs_i64(value)).len()),
        ArithmeticExpression::ExactDecimal { coefficient, .. } => Some(decimal_digits(abs_i64(coefficient)).len()),
        _ => None,
    }
}

/// The columns a leaf takes in a column grid: its digits, and at least one
/// more than its decimal places.
pub open spec fn leaf_grid_cells(e: ArithmeticExpression) -> Option<nat> {
    match e {
        ArithmeticExpression::Integer { value } => Some(decimal_digits(abs_i64(value)).len()),
        ArithmeticExpression::ExactDecimal { coefficient, scale } => {
            let n = decimal_digits(abs_i64(coefficient)).len();
            Some(if n >= scale + 1 { n } else { (scale + 1) as nat })
        },
        _ => None,
    }
}

fn digit_count_of(value: i64) -> (r: usize)
    ensures
        r == decimal_digits(abs_i64(value)).len(),
        1 <= r <= 20,
{
    let magnitude: u64 = if value < 0 {
        if value == i64::MIN {
            9223372036854775808u64
        } else {
            (-value) as u64
        }
    } else {
        value as u64
    };
    proof {
        lemma_decimal_digits(magnitude as nat);
    }
    let mut digits: Vec<u8> = Vec::new();
    crate::worked::push_digits(&mut digits, magnitude);
    proof {
        assert(digits@ =~= decimal_digits(magnitude as nat));
    }
    digits.len()
}

pub fn arithmetic_leaf_significant_digits(expression: &ArithmeticExpression) -> (r: Option<usize>)
    ensures
        match r {
            Some(n) => leaf_significant_digits(*expression) == Some(n as nat),
            None => leaf_significant_digits(*expression) is None,
        },
{
    match expression {
        ArithmeticExpression::Integer { value } => Some(digit_count_of(*value)),
        ArithmeticExpression::ExactDecimal { coefficient, .. } => Some(digit_count_of(*coefficient)),
        _ => None,
    }
}

pub fn arithmetic_leaf_column_grid_cells(expression: &ArithmeticExpression) -> (r: Option<usize>)
    requires
        expression matches ArithmeticExpression::ExactDecimal { scale, .. } ==> scale + 1 <= usize::MAX,
    ensures
        match r {
            Some(n) => leaf_grid_cells(*expression) == Some(n as nat),
            None => leaf_grid_cells(*expression) is None,
        },
{
    match expression {
        ArithmeticExpression::Integer { value } => Some(digit_count_of(*value)),
        ArithmeticExpression::ExactDecimal { coefficient, scale } => {
            let n = digit_count_of(*coefficient);
            if n as u64 >= *scale as u64 + 1 {
                Some(n)
            } else {
                Some((*scale as u64 + 1) as usize)
            }
        },
        _ => None,
    }
}

/// A nonzero integer of magnitude at most `max_abs` and a random sign.
pub open spec fn signed_integer_draw(state: u64, max_abs: i64) -> (Option<i64>, u64) {
    if max_abs <= 0 {
        (None, state)
    } else {
        let (m, next) = bounded_draw(state, max_abs as u64, MAX_REJECTED_DRAWS as nat);
        let (s, after) = bounded_draw(next, 2, MAX_REJECTED_DRAWS as nat);
        (Some(if s == 0 { (1 + m) as i64 } else { -(1 + m) as i64 }), after)
    }
}

pub fn draw_signed_integer(rng: &mut DeterministicRng, max_abs: i64) -> (r: Option<i64>)
    ensures
        (r, final(rng)@) == signed_integer_draw(old(rng)@, max_abs),
        r matches Some(v) ==> v != 0 && -max_abs <= v <= max_abs,
{
    if max_abs <= 0 {
        return None;
    }
    let magnitude = (1 + rng.next_bounded(max_abs as u64)) as i64;
    if rng.next_bounded(2) == 0 {
        Some(magnitude)
    } else {
        Some(-magnitude)
    }
}

/// Makes sure at least one value is negative: where all are positive, one
/// drawn at random is negated. `None` for no values.
pub fn ensure_negative_term(rng: &mut DeterministicRng, values: &mut Vec<i64>) -> (r: Option<()>)
    ensures
        r is None <==> old(values)@.len() == 0,
        final(values)@.len() == old(values)@.len(),
        r is Some ==> exists|i: int| 0 <= i < final(values)@.len() && #[trigger] final(values)@[i] <= 0,
        (exists|i: int| 0 <= i < old(values)@.len() && #[trigger] old(values)@[i] <= 0) ==> final(values)@ == old(
            values,
        )@ && final(rng)@ == old(rng)@,
        (forall|i: int| 0 <= i < old(values)@.len() ==> #[trigger] old(values)@[i] > 0) && old(values)@.len() > 0
            ==> ({
            let (k, next) = bounded_draw(old(rng)@, old(values)@.len() as u64, MAX_REJECTED_DRAWS as nat);
            &&& final(rng)@ == next
            &&& final(values)@ == old(values)@.update(k as int, (-old(values)@[k as int]) as i64)
        }),
{
    if values.len() == 0 {
        return None;
    }
    let mut all_positive = true;
    let mut i: usize = 0;
    while i < values.len()
        invariant
            i <= values@.len(),
            all_positive == (forall|j: int| 0 <= j < i ==> #[trigger] values@[j] > 0),
        decreases values@.len() - i,
    {
        if values[i] <= 0 {
            all_positive = false;
        }
        i += 1;
    }
    if all_positive {
        let index = rng.next_bounded(values.len() as u64) as usize;
        let negated = -values[index];
        values.set(index, negated);
        proof {
            assert(values@[index as int] <= 0);
        }
    }
    Some(())
}

pub fn evaluate_expression(expression: &ArithmeticExpression) -> (r: Option<RationalCoefficient>)
    ensures
        match r {
            Some(c) => evaluated(*expression) == Some(c@),
            None => evaluated(*expression) is None,
        },
{
    crate::semantics::evaluate_expression(expression)
}


/// The integer leaves of an expression from left to right; `None` where a
/// leaf is not an integer.
pub open spec fn integer_leaves(e: ArithmeticExpression) -> Option<Seq<i64>>
    decreases e,
{
    match e {
        ArithmeticExpression::Integer { value } => Some(seq![value]),
        ArithmeticExpression::Binary { left, right, .. } => match (integer_leaves(*left), integer_leaves(*right)) {
            (Some(l), Some(r)) => Some(l + r),
            _ => None,
        },
        _ => None,
    }
}

/// An expression over the values in order whose exact value has a numerator
/// of at most 729 in magnitude and a denominator of at most 81; a single
/// value stands alone.
pub open spec fn bounded_rational_ast(e: ArithmeticExpression, values: Seq<i64>) -> bool {
    &&& integer_leaves(e) == Some(values)
    &&& values.len() > 1 ==> (evaluated(e) matches Some((n, d)) && -729 <= n <= 729 && d <= 81)
}

/// The operator a draw in `0..4` picks.
pub open spec fn drawn_operator(k: u64) -> ArithmeticOperator {
    if k == 0 {
        ArithmeticOperator::Add
    } else if k == 1 {
        ArithmeticOperator::Subtract
    } else if k == 2 {
        ArithmeticOperator::Multiply
    } else {
        ArithmeticOperator::Divide
    }
}

/// A tree drawn over `values` from the generator state `state`, and the
/// state after: a single value stands alone; otherwise a split point is
/// drawn (at least one value on each side), the left and then the right
/// subtree drawn, an operator drawn, and the tree kept only where its exact
/// value has a numerator of at most 729 in magnitude and a denominator of
/// at most 81. `None` for no values, and as soon as a subtree or the whole
/// tree is not kept.
pub open spec fn bounded_ast_draw(state: u64, values: Seq<i64>) -> (Option<ArithmeticExpression>, u64)
    decreases values.len(),
{
    if values.len() == 0 || values.len() > u64::MAX {
        (None, state)
    } else if values.len() == 1 {
        (Some(ArithmeticExpression::Integer { value: values[0] }), state)
    } else {
        let upper = (values.len() - 1) as u64;
        let (k, s1) = bounded_draw(state, upper, MAX_REJECTED_DRAWS as nat);
        proof {
            lemma_bounded_draw_below(state, upper, MAX_REJECTED_DRAWS as nat);
        }
        let split = 1 + k;
        let (left, s2) = bounded_ast_draw(s1, values.subrange(0, split));
        match left {
            None => (None, s2),
            Some(l) => {
                let (right, s3) = bounded_ast_draw(s2, values.subrange(split, values.len() as int));
                match right {
                    None => (None, s3),
                    Some(r) => {
                        let (o, s4) = bounded_draw(s3, 4, MAX_REJECTED_DRAWS as nat);
                        let e = ArithmeticExpression::Binary {
                            operator: drawn_operator(o),
                            left: Box::new(l),
                            right: Box::new(r),
                        };
                        match evaluated(e) {
                            Some((n, d)) => if -729 <= n <= 729 && d <= 81 {
                                (Some(e), s4)
                            } else {
                                (None, s4)
                            },
                            None => (None, s4),
                        }
                    },
                }
            },
        }
    }
}

/// A kept tree is over the values in order and within the bounds.
proof fn lemma_bounded_ast_draw_sound(state: u64, values: Seq<i64>)
    ensures
        bounded_ast_draw(state, values).0 matches Some(e) ==> bounded_rational_ast(e, values),
    decreases values.len(),
{
    if values.len() == 1 {
        assert(seq![values[0]] =~= values);
    } else if values.len() > 1 && values.len() <= u64::MAX {
        let upper = (values.len() - 1) as u64;
        let (k, s1) = bounded_draw(state, upper, MAX_REJECTED_DRAWS as nat);
        lemma_bounded_draw_below(state, upper, MAX_REJECTED_DRAWS as nat);
        let split = 1 + k;
        let lv = values.subrange(0, split);
        let rv = values.subrange(split, values.len() as int);
        let (left, s2) = bounded_ast_draw(s1, lv);
        lemma_bounded_ast_draw_sound(s1, lv);
        if left is Some {
            lemma_bounded_ast_draw_sound(s2, rv);
            assert(lv + rv =~= values);
        }
    }
}

#[verifier::spinoff_prover]
#[verifier::rlimit(30)]
fn draw_bounded_ast_between(rng: &mut DeterministicRng, values: &[i64], lo: usize, hi: usize) -> (r: Option<
    ArithmeticExpression,
>)
    requires
        lo < hi <= values@.len(),
    ensures
        (r, final(rng)@) == bounded_ast_draw(old(rng)@, values@.subrange(lo as int, hi as int)),
        r matches Some(e) ==> bounded_rational_ast(e, values@.subrange(lo as int, hi as int)),
    decreases hi - lo,
{
    let ghost part = values@.subrange(lo as int, hi as int);
    proof {
        lemma_bounded_ast_draw_sound(old(rng)@, part);
    }
    if hi - lo == 1 {
        proof {
            assert(values@.subrange(lo as int, hi as int) =~= seq![values@[lo as int]]);
        }
        return Some(integer_expression(values[lo]));
    }
    let k = rng.next_bounded((hi - lo - 1) as u64);
    let split = lo + 1 + k as usize;
    proof {
        assert(part.subrange(0, split - lo) =~= values@.subrange(lo as int, split as int));
        assert(part.subrange(split - lo, part.len() as int) =~= values@.subrange(split as int, hi as int));
    }
    let left = match draw_bounded_ast_between(rng, values, lo, split) {
        Some(e) => e,
        None => return None,
    };
    let right = match draw_bounded_ast_between(rng, values, split, hi) {
        Some(e) => e,
        None => return None,
    };
    let o = rng.next_bounded(4);
    let operator = match o {
        0 => ArithmeticOperator::Add,
        1 => ArithmeticOperator::Subtract,
        2 => ArithmeticOperator::Multiply,
        _ => ArithmeticOperator::Divide,
    };
    proof {
        assert(operator == drawn_operator(o));
    }
    let expression = binary_expression(operator, left, right);
    let value = match evaluate_expression(&expression) {
        Some(v) => v,
        None => return None,
    };
    let numerator = value.numerator();
    if numerator >= -729 && numerator <= 729 && value.denominator() <= 81 {
        Some(expression)
    } else {
        None
    }
}

/// A random expression tree over the values in order, kept only where its
/// exact value stays small (see `bounded_rational_ast`); `None` for no
/// values and for a tree that leaves those bounds or cannot be evaluated.
pub fn draw_bounded_rational_arithmetic_ast(rng: &mut DeterministicRng, values: &[i64]) -> (r: Option<
    ArithmeticExpression,
>)
    ensures
        (r, final(rng)@) == bounded_ast_draw(old(rng)@, values@),
        values@.len() == 0 ==> r is None,
        values@.len() == 1 ==> r == Some(ArithmeticExpression::Integer { value: values@[0] }),
        r matches Some(e) ==> bounded_rational_ast(e, values@),
{
    if values.len() == 0 {
        return None;
    }
    proof {
        assert(values@.subrange(0, values@.len() as int) =~= values@);
    }
    draw_bounded_ast_between(rng, values, 0, values.len())
}

} // verus!
