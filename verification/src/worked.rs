//! Worked solutions of column multiplication and long division, derived
//! from the prompt and its canonical answer.

use vstd::prelude::*;
use crate::answer::{AnswerNode, AnswerValue};
use crate::error::ProblemInvariantError;
use crate::exact::{checked_pow10_i64, checked_pow10_u64, pow10};
use crate::model::{is_js_safe_integer, js_safe, AnswerSchema, ArithmeticExpression, ArithmeticOperator, ProblemPrompt};
use crate::normalize::in_i64;
use crate::solutions::{lemma_views_of_tuple, views};

verus! {

/// Decimal digits of an unsigned integer, most significant first.
pub open spec fn decimal_digits(v: nat) -> Seq<u8>
    decreases v,
{
    if v < 10 {
        seq![v as u8]
    } else {
        decimal_digits(v / 10).push((v % 10) as u8)
    }
}

pub proof fn lemma_decimal_digits(v: nat)
    ensures
        1 <= decimal_digits(v).len(),
        v <= u64::MAX ==> decimal_digits(v).len() <= 20,
        forall|i: int| 0 <= i < decimal_digits(v).len() ==> #[trigger] decimal_digits(v)[i] < 10,
    decreases v,
{
    if v >= 10 {
        lemma_decimal_digits(v / 10);
        if v <= u64::MAX {
            lemma_digits_shorter(v);
        }
    }
}

proof fn lemma_digits_shorter(v: nat)
    requires
        v <= u64::MAX,
    ensures
        decimal_digits(v).len() <= 20,
{
    lemma_digits_len_pow(v, 20);
    crate::exact::lemma_pow10_20();
}

proof fn lemma_digits_len_pow(v: nat, k: nat)
    ensures
        k >= 1 && v < crate::exact::pow10(k) ==> decimal_digits(v).len() <= k,
    decreases v,
{
    if v >= 10 {
        if k >= 1 {
            crate::exact::lemma_pow10_step((k - 1) as nat);
        }
        lemma_digits_len_pow(v / 10, (k - 1) as nat);
        if k == 1 {
            vstd::arithmetic::power::lemma_pow1(10);
        }
    }
}

/// Appends the decimal digits of `value` to `out`.
pub fn push_digits(out: &mut Vec<u8>, value: u64)
    ensures
        final(out)@ == old(out)@ + decimal_digits(value as nat),
    decreases value,
{
    if value < 10 {
        out.push(value as u8);
    } else {
        push_digits(out, value / 10);
        out.push((value % 10) as u8);
    }
}

/// One row of a column multiplication: the multiplicand times one digit of
/// the multiplier, shifted `place` columns to the left.
#[derive(Clone, Copy, Debug, PartialEq, Eq, Structural)]
pub struct ColumnMultiplicationPartial {
    pub value: i64,
    pub place: u32,
}

/// One subtraction of a long division: `product` is taken away, and `after`
/// is what remains with the next digit brought down; the offsets count
/// columns from the right end of the dividend.
#[derive(Clone, Copy, Debug, PartialEq, Eq, Structural)]
pub struct LongDivisionStep {
    pub product: i64,
    pub after: i64,
    pub product_offset: u32,
    pub after_offset: u32,
}

/// The partial products of `multiplicand` times the digits of `multiplier`,
/// from the units digit up; `None` when one leaves `i64`.
pub open spec fn multiplication_partials(multiplicand: nat, multiplier: nat) -> Option<
    Seq<ColumnMultiplicationPartial>,
> {
    let ds = decimal_digits(multiplier);
    let n = ds.len();
    if forall|k: int| 0 <= k < n ==> multiplicand * #[trigger] ds[n - 1 - k] <= i64::MAX {
        Some(
            Seq::new(
                n,
                |k: int| ColumnMultiplicationPartial { value: (multiplicand * ds[n - 1 - k]) as i64, place: k as u32 },
            ),
        )
    } else {
        None
    }
}

fn column_multiplication_partials(multiplicand: u64, multiplier: u64) -> (r: Option<Vec<ColumnMultiplicationPartial>>)
    ensures
        match r {
            Some(v) => multiplication_partials(multiplicand as nat, multiplier as nat) == Some(v@),
            None => multiplication_partials(multiplicand as nat, multiplier as nat) is None,
        },
{
    let mut ds: Vec<u8> = Vec::new();
    push_digits(&mut ds, multiplier);
    let ghost digits = decimal_digits(multiplier as nat);
    proof {
        assert(ds@ =~= digits);
        lemma_decimal_digits(multiplier as nat);
    }
    let n = ds.len();
    let mut partials: Vec<ColumnMultiplicationPartial> = Vec::new();
    let mut place: usize = 0;
    while place < n
        invariant
            ds@ == digits,
            digits == decimal_digits(multiplier as nat),
            n == digits.len(),
            n <= 20,
            place <= n,
            forall|i: int| 0 <= i < n ==> #[trigger] digits[i] < 10,
            partials@.len() == place,
            forall|k: int| 0 <= k < place ==> multiplicand * #[trigger] digits[n - 1 - k] <= i64::MAX,
            forall|k: int| 0 <= k < place ==> #[trigger] partials@[k] == (ColumnMultiplicationPartial {
                value: (multiplicand * digits[n - 1 - k]) as i64,
                place: k as u32,
            }),
        decreases n - place,
    {
        let digit = ds[n - 1 - place] as u64;
        let value = match multiplicand.checked_mul(digit) {
            Some(v) => v,
            None => {
                proof {
                    assert(multiplicand * digits[n - 1 - place as int] > i64::MAX);
                }
                return None;
            },
        };
        if value > i64::MAX as u64 {
            proof {
                assert(multiplicand * digits[n - 1 - place as int] > i64::MAX);
            }
            return None;
        }
        partials.push(ColumnMultiplicationPartial { value: value as i64, place: place as u32 });
        place += 1;
    }
    proof {
        let spec_partials = Seq::new(
            n as nat,
            |k: int| ColumnMultiplicationPartial { value: (multiplicand * digits[n - 1 - k]) as i64, place: k as u32 },
        );
        assert(partials@ =~= spec_partials);
    }
    Some(partials)
}


/// The digits of a long division's dividend: the magnitude padded with
/// leading zeros to `scale + 1` digits, then `appended` zeros.
pub open spec fn dividend_digits(magnitude: nat, scale: nat, appended: nat) -> Seq<u8> {
    let ds = decimal_digits(magnitude);
    let pad: nat = if ds.len() < scale + 1 { (scale + 1 - ds.len()) as nat } else { 0 };
    Seq::new(pad, |i: int| 0u8) + ds + Seq::new(appended, |i: int| 0u8)
}

/// `Some(prefix + rest)`, or `None` where the rest failed.
pub open spec fn prepend_steps(prefix: Seq<LongDivisionStep>, rest: Option<Seq<LongDivisionStep>>) -> Option<
    Seq<LongDivisionStep>,
> {
    match rest {
        Some(r) => Some(prefix + r),
        None => None,
    }
}

/// The subtractions of a long division of the digits `d` by `divisor`,
/// from digit `i` on with `current` carried, up to digit `processed`.
/// Leading digits whose quotient digit is zero are only brought down; each
/// later digit gives one step. `None` when a value leaves `i64`, or an
/// offset leaves `u32`.
pub open spec fn long_division_steps(
    d: Seq<u8>,
    divisor: nat,
    processed: nat,
    i: nat,
    current: nat,
    started: bool,
) -> Option<Seq<LongDivisionStep>>
    decreases processed - i,
{
    if i >= processed || i >= d.len() || divisor == 0 {
        Some(Seq::empty())
    } else {
        let c: nat = current * 10 + d[i as int] as nat;
        if c > i64::MAX {
            None
        } else {
            let q = c / divisor;
            let has_more = i + 1 < d.len();
            if !started && q == 0 && has_more {
                long_division_steps(d, divisor, processed, i + 1, c, false)
            } else {
                let rem: nat = c % divisor;
                let offset = (d.len() - i - 1) as nat;
                let after: nat = if has_more { rem * 10 + d[i + 1int] as nat } else { rem };
                if offset > u32::MAX || after > i64::MAX {
                    None
                } else {
                    let step = LongDivisionStep {
                        product: (q * divisor) as i64,
                        after: after as i64,
                        product_offset: offset as u32,
                        after_offset: (if has_more { offset - 1 } else { offset as int }) as u32,
                    };
                    prepend_steps(seq![step], long_division_steps(d, divisor, processed, i + 1, rem, true))
                }
            }
        }
    }
}

/// The digit at `i` of the dividend digits, read without building them.
fn dividend_digit(natural: &Vec<u8>, pad: u64, i: u64) -> (r: u8)
    requires
        natural@.len() <= 20,
        pad + 20 <= u64::MAX,
    ensures
        i < pad ==> r == 0,
        pad <= i < pad + natural@.len() ==> r == natural@[i - pad],
        i >= pad + natural@.len() ==> r == 0,
{
    if i < pad {
        0
    } else if i - pad < natural.len() as u64 {
        natural[(i - pad) as usize]
    } else {
        0
    }
}

fn long_division(
    natural: &Vec<u8>,
    pad: u64,
    appended: u64,
    divisor: i64,
    processed: u64,
    ghost_digits: Ghost<Seq<u8>>,
) -> (r: Option<Vec<LongDivisionStep>>)
    requires
        natural@.len() <= 20,
        pad <= u32::MAX + 1,
        appended <= 20,
        divisor > 0,
        ghost_digits@ == Seq::new(pad as nat, |i: int| 0u8) + natural@ + Seq::new(appended as nat, |i: int| 0u8),
        forall|i: int| 0 <= i < natural@.len() ==> #[trigger] natural@[i] < 10,
        processed <= ghost_digits@.len(),
    ensures
        match r {
            Some(v) => long_division_steps(ghost_digits@, divisor as nat, processed as nat, 0, 0, false) == Some(v@),
            None => long_division_steps(ghost_digits@, divisor as nat, processed as nat, 0, 0, false) is None,
        },
{
    let ghost d = ghost_digits@;
    let total: u64 = pad + natural.len() as u64 + appended;
    let mut steps: Vec<LongDivisionStep> = Vec::new();
    let mut current: i64 = 0;
    let mut started = false;
    let mut index: u64 = 0;
    while index < processed
        invariant
            d == ghost_digits@,
            d.len() == total,
            total == pad + natural@.len() + appended,
            natural@.len() <= 20,
            pad <= u32::MAX + 1,
            appended <= 20,
            divisor > 0,
            d == Seq::new(pad as nat, |i: int| 0u8) + natural@ + Seq::new(appended as nat, |i: int| 0u8),
            forall|i: int| 0 <= i < natural@.len() ==> #[trigger] natural@[i] < 10,
            processed <= total,
            index <= processed,
            0 <= current < divisor || (!started && 0 <= current),
            long_division_steps(d, divisor as nat, processed as nat, 0, 0, false) == prepend_steps(
                steps@,
                long_division_steps(d, divisor as nat, processed as nat, index as nat, current as nat, started),
            ),
        decreases processed - index,
    {
        let digit = dividend_digit(natural, pad, index);
        proof {
            assert(digit == d[index as int]);
            assert(digit < 10);
        }
        let c = match current.checked_mul(10) {
            Some(v) => match v.checked_add(digit as i64) {
                Some(c) => c,
                None => return None,
            },
            None => return None,
        };
        let q = c / divisor;
        let has_more = index + 1 < total;
        if !started && q == 0 && has_more {
            current = c;
            index += 1;
        } else {
            started = true;
            proof {
                assert(0 <= q * divisor <= c && c - q * divisor == (c as int) % (divisor as int) && q == (c as int) / (divisor as int))
                    by (nonlinear_arith)
                    requires
                        c >= 0,
                        divisor > 0,
                        q == c / divisor,
                ;
            }
            let product = q * divisor;
            let rem = c - product;
            let offset_wide = total - index - 1;
            if offset_wide > u32::MAX as u64 {
                return None;
            }
            let product_offset = offset_wide as u32;
            let after = if has_more {
                let next = dividend_digit(natural, pad, index + 1);
                proof {
                    assert(next == d[index + 1]);
                }
                match rem.checked_mul(10) {
                    Some(v) => match v.checked_add(next as i64) {
                        Some(a) => a,
                        None => return None,
                    },
                    None => return None,
                }
            } else {
                rem
            };
            let after_offset = if has_more { product_offset - 1 } else { product_offset };
            let step = LongDivisionStep { product, after, product_offset, after_offset };
            let ghost before = steps@;
            steps.push(step);
            proof {
                match long_division_steps(d, divisor as nat, processed as nat, index as nat + 1, rem as nat, true) {
                    Some(rest) => {
                        assert(before + (seq![step] + rest) =~= steps@ + rest);
                    },
                    None => {},
                }
            }
            current = rem;
            index += 1;
        }
    }
    proof {
        assert(steps@ + Seq::<LongDivisionStep>::empty() =~= steps@);
    }
    Some(steps)
}


/// What a worked solution shows.
#[derive(Clone, Debug, PartialEq, Eq)]
pub enum WorkedSolutionKind {
    ColumnMultiplication { partial_products: Vec<ColumnMultiplicationPartial> },
    LongDivision {
        divisor: i64,
        dividend_coefficient: i64,
        dividend_scale: u32,
        quotient_trailing_cells: u32,
        steps: Vec<LongDivisionStep>,
    },
}

/// The worked steps of a column multiplication or a long division.
#[derive(Clone, Debug, PartialEq, Eq)]
pub struct WorkedSolution {
    kind: WorkedSolutionKind,
}

/// The model of a worked solution.
pub enum WorkedModel {
    ColumnMultiplication(Seq<ColumnMultiplicationPartial>),
    LongDivision {
        divisor: i64,
        dividend_coefficient: i64,
        dividend_scale: u32,
        quotient_trailing_cells: u32,
        steps: Seq<LongDivisionStep>,
    },
}

pub open spec fn kind_model(kind: WorkedSolutionKind) -> WorkedModel {
    match kind {
        WorkedSolutionKind::ColumnMultiplication { partial_products } => WorkedModel::ColumnMultiplication(
            partial_products@,
        ),
        WorkedSolutionKind::LongDivision {
            divisor,
            dividend_coefficient,
            dividend_scale,
            quotient_trailing_cells,
            steps,
        } => WorkedModel::LongDivision {
            divisor,
            dividend_coefficient,
            dividend_scale,
            quotient_trailing_cells,
            steps: steps@,
        },
    }
}

impl View for WorkedSolution {
    type V = WorkedModel;

    closed spec fn view(&self) -> WorkedModel {
        kind_model(self.kind)
    }
}

/// The coefficient and scale of an integer or exact decimal leaf.
pub open spec fn leaf_scaled(e: ArithmeticExpression) -> Option<(i64, u32)> {
    match e {
        ArithmeticExpression::Integer { value } => Some((value, 0u32)),
        ArithmeticExpression::ExactDecimal { coefficient, scale } => Some((coefficient, scale)),
        _ => None,
    }
}

/// The number of decimal places of the answer's quotient: the first item of
/// a list, or the answer itself.
pub open spec fn quotient_scale(answer: AnswerValue) -> u32 {
    let q = match answer {
        AnswerValue::Tuple(vs) => if vs.len() > 0 { vs[0] } else { answer },
        _ => answer,
    };
    match q {
        AnswerValue::ExactDecimal { scale, .. } => scale,
        _ => 0,
    }
}

pub open spec fn abs_i64(x: i64) -> nat {
    if x < 0 { (-x) as nat } else { x as nat }
}

/// The scaled dividend of `left / right` once the divisor is a whole
/// number: `(coefficient, scale)`, or `None` when it leaves `i64`.
pub open spec fn normalized_dividend(lc: i64, ls: u32, rs: u32) -> Option<(i64, u32)> {
    if rs <= ls {
        Some((lc, (ls - rs) as u32))
    } else {
        let p = pow10((rs - ls) as nat);
        if p > i64::MAX || !in_i64(lc * p) {
            None
        } else {
            Some(((lc * p) as i64, 0u32))
        }
    }
}

/// The long division that a division prompt and its answer call for.
pub open spec fn long_division_model(
    left: ArithmeticExpression,
    right: ArithmeticExpression,
    schema: AnswerSchema,
    answer: AnswerValue,
) -> Option<WorkedModel> {
    match (leaf_scaled(left), leaf_scaled(right)) {
        (Some((lc, ls)), Some((rc, rs))) => match normalized_dividend(lc, ls, rs) {
            Some((ndc, nds)) => {
                let divisor = abs_i64(rc);
                let qs = quotient_scale(answer);
                let calc: Option<nat> = match schema {
                    AnswerSchema::RoundedDecimal { scale } => if scale == u32::MAX {
                        None
                    } else {
                        Some((scale + 1) as nat)
                    },
                    _ => Some(qs as nat),
                };
                if divisor == 0 || divisor > i64::MAX || calc is None {
                    None
                } else {
                    let target: nat = if nds >= calc->0 { nds as nat } else { calc->0 };
                    let appended = (target - nds) as nat;
                    let magnitude = abs_i64(ndc);
                    let digits = dividend_digits(magnitude, nds as nat, appended);
                    let base_len = digits.len() - appended;
                    let processed: nat = match schema {
                        AnswerSchema::DecimalDivisionRemainder { quotient_scale, .. } => if base_len - nds
                            + quotient_scale <= base_len {
                            (base_len - nds + quotient_scale) as nat
                        } else {
                            base_len as nat
                        },
                        _ => digits.len(),
                    };
                    let coefficient = magnitude * pow10(appended);
                    if pow10(appended) > u64::MAX || coefficient > i64::MAX {
                        None
                    } else {
                        match long_division_steps(digits, divisor, processed, 0, 0, false) {
                            Some(steps) => Some(
                                WorkedModel::LongDivision {
                                    divisor: divisor as i64,
                                    dividend_coefficient: coefficient as i64,
                                    dividend_scale: target as u32,
                                    quotient_trailing_cells: (if target >= qs { target - qs } else { 0 }) as u32,
                                    steps,
                                },
                            ),
                            None => None,
                        }
                    }
                }
            },
            None => None,
        },
        _ => None,
    }
}

/// The worked solution of a column multiplication or division; `None` for
/// the other operators, for leaves that are not integers or exact decimals,
/// and where a value leaves the integer types.
pub open spec fn column_worked_model(
    operator: ArithmeticOperator,
    left: ArithmeticExpression,
    right: ArithmeticExpression,
    schema: AnswerSchema,
    answer: AnswerValue,
) -> Option<WorkedModel> {
    match operator {
        ArithmeticOperator::Multiply => match (leaf_scaled(left), leaf_scaled(right)) {
            (Some((lc, _)), Some((rc, _))) => match multiplication_partials(abs_i64(lc), abs_i64(rc)) {
                Some(p) => Some(WorkedModel::ColumnMultiplication(p)),
                None => None,
            },
            _ => None,
        },
        ArithmeticOperator::Divide => long_division_model(left, right, schema, answer),
        _ => None,
    }
}

fn leaf_scaled_integer(expression: &ArithmeticExpression) -> (r: Option<(i64, u32)>)
    ensures
        r == leaf_scaled(*expression),
{
    match expression {
        ArithmeticExpression::Integer { value } => Some((*value, 0)),
        ArithmeticExpression::ExactDecimal { coefficient, scale } => Some((*coefficient, *scale)),
        _ => None,
    }
}

fn quotient_answer_scale(answer: &AnswerNode) -> (r: u32)
    ensures
        r == quotient_scale(answer@),
{
    let quotient = match answer {
        AnswerNode::Tuple(values) => {
            proof {
                lemma_views_of_tuple(values@);
            }
            if values.len() > 0 {
                assert(views(values@)[0] == values@[0]@);
                &values[0]
            } else {
                answer
            }
        },
        _ => answer,
    };
    match quotient {
        AnswerNode::ExactDecimal { scale, .. } => *scale,
        _ => 0,
    }
}

fn unsigned_magnitude(x: i64) -> (r: u64)
    ensures
        r == abs_i64(x),
{
    if x < 0 {
        if x == i64::MIN {
            9223372036854775808u64
        } else {
            (-x) as u64
        }
    } else {
        x as u64
    }
}

impl WorkedSolution {
    pub fn kind(&self) -> (r: &WorkedSolutionKind)
        ensures
            kind_model(*r) == self@,
    {
        &self.kind
    }

    fn for_long_division(
        left: &ArithmeticExpression,
        right: &ArithmeticExpression,
        answer_schema: &AnswerSchema,
        answer: &AnswerNode,
    ) -> (r: Option<Self>)
        ensures
            match r {
                Some(w) => long_division_model(*left, *right, *answer_schema, answer@) == Some(w@),
                None => long_division_model(*left, *right, *answer_schema, answer@) is None,
            },
    {
        let (lc, ls) = match leaf_scaled_integer(left) {
            Some(v) => v,
            None => return None,
        };
        let (rc, rs) = match leaf_scaled_integer(right) {
            Some(v) => v,
            None => return None,
        };
        let (ndc, nds) = if rs <= ls {
            (lc, ls - rs)
        } else {
            let p = match checked_pow10_i64(rs - ls) {
                Some(p) => p,
                None => return None,
            };
            match lc.checked_mul(p) {
                Some(v) => (v, 0u32),
                None => return None,
            }
        };
        let divisor_magnitude = unsigned_magnitude(rc);
        if divisor_magnitude > i64::MAX as u64 || divisor_magnitude == 0 {
            return None;
        }
        let divisor = divisor_magnitude as i64;
        let qs = quotient_answer_scale(answer);
        let calc: u32 = match answer_schema {
            AnswerSchema::RoundedDecimal { scale } => match scale.checked_add(1) {
                Some(c) => c,
                None => return None,
            },
            _ => qs,
        };
        let target: u32 = if nds >= calc { nds } else { calc };
        let appended = target - nds;
        let magnitude = unsigned_magnitude(ndc);
        let mut natural: Vec<u8> = Vec::new();
        push_digits(&mut natural, magnitude);
        proof {
            assert(natural@ =~= decimal_digits(magnitude as nat));
            lemma_decimal_digits(magnitude as nat);
        }
        let width: u64 = nds as u64 + 1;
        let pad: u64 = if (natural.len() as u64) < width { width - natural.len() as u64 } else { 0 };
        let base_len: u64 = pad + natural.len() as u64;
        let power = match checked_pow10_u64(appended) {
            Some(p) => p,
            None => return None,
        };
        let coefficient = match magnitude.checked_mul(power) {
            Some(c) => c,
            None => return None,
        };
        if coefficient > i64::MAX as u64 {
            return None;
        }
        proof {
            if appended > 19 {
                crate::exact::lemma_pow10_20();
                crate::exact::lemma_pow10_monotone(20, appended as nat);
            }
        }
        let total: u64 = base_len + appended as u64;
        let processed: u64 = match answer_schema {
            AnswerSchema::DecimalDivisionRemainder { quotient_scale, .. } => {
                let integer_digits = base_len - nds as u64;
                if integer_digits + *quotient_scale as u64 <= base_len {
                    integer_digits + *quotient_scale as u64
                } else {
                    base_len
                }
            },
            _ => total,
        };
        let ghost digits = dividend_digits(magnitude as nat, nds as nat, appended as nat);
        let steps = match long_division(&natural, pad, appended as u64, divisor, processed, Ghost(digits)) {
            Some(s) => s,
            None => return None,
        };
        let trailing: u32 = if target >= qs { target - qs } else { 0 };
        Some(
            WorkedSolution {
                kind: WorkedSolutionKind::LongDivision {
                    divisor,
                    dividend_coefficient: coefficient as i64,
                    dividend_scale: target,
                    quotient_trailing_cells: trailing,
                    steps,
                },
            },
        )
    }

    /// The worked solution of a column multiplication or long division.
    pub fn for_column_arithmetic(
        operator: ArithmeticOperator,
        left: &ArithmeticExpression,
        right: &ArithmeticExpression,
        answer_schema: &AnswerSchema,
        answer: &AnswerNode,
    ) -> (r: Option<Self>)
        ensures
            match r {
                Some(w) => column_worked_model(operator, *left, *right, *answer_schema, answer@) == Some(w@),
                None => column_worked_model(operator, *left, *right, *answer_schema, answer@) is None,
            },
    {
        match operator {
            ArithmeticOperator::Multiply => {
                let (lc, _) = match leaf_scaled_integer(left) {
                    Some(v) => v,
                    None => return None,
                };
                let (rc, _) = match leaf_scaled_integer(right) {
                    Some(v) => v,
                    None => return None,
                };
                match column_multiplication_partials(unsigned_magnitude(lc), unsigned_magnitude(rc)) {
                    Some(partial_products) => Some(
                        WorkedSolution { kind: WorkedSolutionKind::ColumnMultiplication { partial_products } },
                    ),
                    None => None,
                }
            },
            ArithmeticOperator::Divide => Self::for_long_division(left, right, answer_schema, answer),
            _ => None,
        }
    }
}


/// Every integer of a worked solution crosses the JavaScript wire exactly.
pub open spec fn worked_js_safe(w: WorkedModel) -> bool {
    match w {
        WorkedModel::ColumnMultiplication(ps) => partials_js_safe(ps),
        WorkedModel::LongDivision { divisor, dividend_coefficient, steps, .. } => js_safe(divisor) && js_safe(
            dividend_coefficient,
        ) && steps_js_safe(steps),
    }
}

pub open spec fn partials_js_safe(ps: Seq<ColumnMultiplicationPartial>) -> bool {
    forall|i: int| 0 <= i < ps.len() ==> js_safe(#[trigger] ps[i].value)
}

pub open spec fn steps_js_safe(steps: Seq<LongDivisionStep>) -> bool {
    forall|i: int| #![trigger steps[i]] 0 <= i < steps.len() ==> js_safe(steps[i].product) && js_safe(steps[i].after)
}

/// The worked solution a prompt calls for: one for column multiplication
/// and division, none for the others.
pub open spec fn prompt_worked_model(prompt: ProblemPrompt, schema: AnswerSchema, answer: AnswerValue) -> Result<
    Option<WorkedModel>,
    ProblemInvariantError,
> {
    match prompt {
        ProblemPrompt::ColumnArithmetic { operator, left, right } => if operator == ArithmeticOperator::Multiply
            || operator == ArithmeticOperator::Divide {
            match column_worked_model(operator, left, right, schema, answer) {
                Some(w) => Ok(Some(w)),
                None => Err(ProblemInvariantError::WorkedSolution),
            }
        } else {
            Ok(None)
        },
        _ => Ok(None),
    }
}

impl WorkedSolution {
    /// The worked solution of a prompt, `Ok(None)` where it has none, and the
    /// worked-solution error where a column multiplication or division has
    /// none that can be derived.
    pub fn for_prompt(prompt: &ProblemPrompt, answer_schema: &AnswerSchema, answer: &AnswerNode) -> (r: Result<
        Option<Self>,
        ProblemInvariantError,
    >)
        ensures
            match r {
                Ok(Some(w)) => prompt_worked_model(*prompt, *answer_schema, answer@) == Ok::<
                    Option<WorkedModel>,
                    ProblemInvariantError,
                >(Some(w@)),
                Ok(None) => prompt_worked_model(*prompt, *answer_schema, answer@) == Ok::<
                    Option<WorkedModel>,
                    ProblemInvariantError,
                >(None),
                Err(e) => prompt_worked_model(*prompt, *answer_schema, answer@) == Err::<
                    Option<WorkedModel>,
                    ProblemInvariantError,
                >(e),
            },
    {
        match prompt {
            ProblemPrompt::ColumnArithmetic { operator, left, right } => match operator {
                ArithmeticOperator::Multiply | ArithmeticOperator::Divide => match Self::for_column_arithmetic(
                    *operator,
                    left,
                    right,
                    answer_schema,
                    answer,
                ) {
                    Some(w) => Ok(Some(w)),
                    None => Err(ProblemInvariantError::WorkedSolution),
                },
                _ => Ok(None),
            },
            _ => Ok(None),
        }
    }

    /// Whether every integer of the solution crosses the JavaScript wire
    /// exactly.
    pub fn has_js_safe_wire_values(&self) -> (r: bool)
        ensures
            r == worked_js_safe(self@),
    {
        match &self.kind {
            WorkedSolutionKind::ColumnMultiplication { partial_products } => {
                let mut i: usize = 0;
                while i < partial_products.len()
                    invariant
                        self@ == WorkedModel::ColumnMultiplication(partial_products@),
                        i <= partial_products@.len(),
                        forall|j: int| 0 <= j < i ==> js_safe(#[trigger] partial_products@[j].value),
                    decreases partial_products@.len() - i,
                {
                    if !is_js_safe_integer(partial_products[i].value) {
                        proof {
                            assert(!js_safe(partial_products@[i as int].value));
                        }
                        return false;
                    }
                    i += 1;
                }
                true
            },
            WorkedSolutionKind::LongDivision { divisor, dividend_coefficient, steps, .. } => {
                if !is_js_safe_integer(*divisor) || !is_js_safe_integer(*dividend_coefficient) {
                    return false;
                }
                let mut i: usize = 0;
                while i < steps.len()
                    invariant
                        self@ matches WorkedModel::LongDivision { steps: s, .. } && s == steps@,
                        i <= steps@.len(),
                        forall|j: int| #![trigger steps@[j]] 0 <= j < i ==> js_safe(steps@[j].product) && js_safe(
                            steps@[j].after,
                        ),
                    decreases steps@.len() - i,
                {
                    if !is_js_safe_integer(steps[i].product) || !is_js_safe_integer(steps[i].after) {
                        return false;
                    }
                    i += 1;
                }
                true
            },
        }
    }
}

} // verus!
