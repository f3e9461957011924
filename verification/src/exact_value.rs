//! Projection from answer syntax to exact rational values.

use vstd::prelude::*;
use crate::answer::{AnswerBinaryOperator, AnswerNode, AnswerValue};
use crate::exact::{
    abs_int, checked_pow10_i128, gcd_spec, lemma_add_denotes, lemma_cancel_positive, lemma_divide_denotes,
    lemma_multiply_denotes, lemma_negate_denotes, lemma_ops_reduced, lemma_pow10_positive, lemma_spec_new_facts,
    pow10, ExactRational,
};

verus! {

/// The exact rational denoted by an answer, when it is a rational expression
/// whose every intermediate step stays in `i128` range.
pub open spec fn rational_value(v: AnswerValue) -> Option<ExactRational>
    decreases v,
{
    match v {
        AnswerValue::Integer(x) => Some(ExactRational::spec_from_integer(x as int)),
        AnswerValue::ExactDecimal { coefficient, scale } => if pow10(scale as nat) > i128::MAX {
            None
        } else {
            ExactRational::spec_new(coefficient as int, pow10(scale as nat))
        },
        AnswerValue::Fraction { numerator, denominator } => match (
            rational_value(*numerator),
            rational_value(*denominator),
        ) {
            (Some(n), Some(d)) => n.spec_divide(d),
            _ => None,
        },
        AnswerValue::MixedFraction { whole, numerator, denominator } => match (
            rational_value(*whole),
            rational_value(*numerator),
            rational_value(*denominator),
        ) {
            (Some(w), Some(n), Some(d)) => match n.spec_divide(d) {
                Some(q) => w.spec_add(q),
                None => None,
            },
            _ => None,
        },
        AnswerValue::Negative(x) => match rational_value(*x) {
            Some(r) => r.spec_negate(),
            None => None,
        },
        AnswerValue::Binary { operator, left, right } => match (
            rational_value(*left),
            rational_value(*right),
        ) {
            (Some(l), Some(r)) => match operator {
                AnswerBinaryOperator::Add => l.spec_add(r),
                AnswerBinaryOperator::Subtract => l.spec_subtract(r),
                AnswerBinaryOperator::Multiply => l.spec_multiply(r),
            },
            _ => None,
        },
        AnswerValue::Root { radicand, index: None } => match rational_value(*radicand) {
            Some(r) => r.spec_square_root(),
            None => None,
        },
        _ => None,
    }
}

/// The exact value of an answer, when it has one, is in lowest terms with a
/// positive denominator.
pub proof fn lemma_rational_value_reduced(v: AnswerValue)
    ensures
        rational_value(v) matches Some(r) ==> r.is_canonical() && r.is_reduced(),
    decreases v,
{
    match v {
        AnswerValue::Integer(x) => {
            let a = abs_int(x as int);
            assert(gcd_spec(a, 1) == 1) by {
                reveal_with_fuel(gcd_spec, 2);
                assert(a % 1 == 0);
            }
        },
        AnswerValue::ExactDecimal { coefficient, scale } => {
            if pow10(scale as nat) <= i128::MAX {
                lemma_pow10_positive(scale as nat);
                lemma_spec_new_facts(coefficient as int, pow10(scale as nat));
            }
        },
        AnswerValue::Fraction { numerator, denominator } => {
            lemma_rational_value_reduced(*numerator);
            lemma_rational_value_reduced(*denominator);
            if let (Some(n), Some(d)) = (rational_value(*numerator), rational_value(*denominator)) {
                lemma_ops_reduced(n, d);
            }
        },
        AnswerValue::MixedFraction { whole, numerator, denominator } => {
            lemma_rational_value_reduced(*whole);
            lemma_rational_value_reduced(*numerator);
            lemma_rational_value_reduced(*denominator);
            if let (Some(w), Some(n), Some(d)) = (
                rational_value(*whole),
                rational_value(*numerator),
                rational_value(*denominator),
            ) {
                lemma_ops_reduced(n, d);
                if let Some(q) = n.spec_divide(d) {
                    lemma_ops_reduced(w, q);
                }
            }
        },
        AnswerValue::Negative(x) => {
            lemma_rational_value_reduced(*x);
            if let Some(r) = rational_value(*x) {
                lemma_ops_reduced(r, r);
            }
        },
        AnswerValue::Binary { operator, left, right } => {
            lemma_rational_value_reduced(*left);
            lemma_rational_value_reduced(*right);
            if let (Some(l), Some(r)) = (rational_value(*left), rational_value(*right)) {
                lemma_ops_reduced(l, r);
            }
        },
        AnswerValue::Root { radicand, index } => {
            lemma_rational_value_reduced(*radicand);
            if let Some(r) = rational_value(*radicand) {
                lemma_ops_reduced(r, r);
            }
        },
        _ => {},
    }
}

/// `r` is the rational `num / den` (cross-multiplied).
pub open spec fn denotes(r: ExactRational, num: int, den: int) -> bool {
    r.numerator * den == num * r.denominator
}

proof fn lemma_difference_cancel(vn: int, vd: int, ln: int, ld: int, rn: int, rd: int, nn: int, nd: int)
    requires
        nn * rd == -rn * nd,
        vn * (ld * nd) == (ln * nd + nn * ld) * vd,
        nd > 0,
    ensures
        vn * (ld * rd) == (ln * rd - rn * ld) * vd,
{
    assert((vn * (ld * rd)) * nd == rd * (vn * (ld * nd))) by (nonlinear_arith);
    assert(rd * (vn * (ld * nd)) == rd * ((ln * nd + nn * ld) * vd));
    assert(rd * ((ln * nd + nn * ld) * vd) == vd * (ln * nd * rd) + vd * ld * (nn * rd)) by (nonlinear_arith);
    assert(vd * ld * (nn * rd) == vd * ld * (-rn * nd));
    let pp = ln * rd;
    let qq = rn * ld;
    assert(vd * (ln * nd * rd) == (pp * vd) * nd) by (nonlinear_arith)
        requires
            pp == ln * rd,
    ;
    assert(vd * ld * (-rn * nd) == -((qq * vd) * nd)) by (nonlinear_arith)
        requires
            qq == rn * ld,
    ;
    assert(((pp - qq) * vd) * nd == (pp * vd) * nd - (qq * vd) * nd) by (nonlinear_arith);
    lemma_cancel_positive(vn * (ld * rd), (ln * rd - rn * ld) * vd, nd);
}

proof fn lemma_mixed_cancel(
    rn: int,
    rd: int,
    wn: int,
    wd: int,
    nn: int,
    nd: int,
    dn: int,
    dd: int,
    qn: int,
    qd: int,
)
    requires
        qn * (nd * dn) == (nn * dd) * qd,
        rn * (wd * qd) == (wn * qd + qn * wd) * rd,
        qd > 0,
    ensures
        rn * (wd * nd * dn) == (wn * nd * dn + nn * dd * wd) * rd,
{
    assert((rn * (wd * nd * dn)) * qd == (nd * dn) * (rn * (wd * qd))) by (nonlinear_arith);
    assert((nd * dn) * (rn * (wd * qd)) == (nd * dn) * ((wn * qd + qn * wd) * rd));
    let k = nd * dn;
    let a = wn * qd;
    let b = qn * wd;
    let c = nn * dd;
    assert(k * ((a + b) * rd) == rd * (a * k) + rd * (b * k)) by (nonlinear_arith);
    assert(b * k == wd * (qn * k)) by (nonlinear_arith)
        requires
            b == qn * wd,
    ;
    assert(qn * k == c * qd);
    assert(rd * (a * k) == ((wn * k) * rd) * qd) by (nonlinear_arith)
        requires
            a == wn * qd,
    ;
    assert(rd * (wd * (c * qd)) == ((c * wd) * rd) * qd) by (nonlinear_arith);
    let x = wn * k;
    let y = c * wd;
    assert(((x + y) * rd) * qd == (x * rd) * qd + (y * rd) * qd) by (nonlinear_arith);
    assert(wn * nd * dn == x) by (nonlinear_arith)
        requires
            x == wn * k,
            k == nd * dn,
    ;
    lemma_cancel_positive(rn * (wd * nd * dn), (wn * nd * dn + nn * dd * wd) * rd, qd);
}

/// What the operations of an answer mean. With `L`, `R`, `T` the values of
/// the subanswers (when they have one), the value of
/// - `L + R` is the rational `L + R`, of `L - R` is `L - R` (left minus
///   right), of `L × R` is `L · R`;
/// - the fraction `L / R` is `L / R`, and the mixed number with whole `L`,
///   numerator `R` and denominator `T` is `L + R / T`;
/// - the negative of `L` is `-L`, and an integer `x` is `x / 1`.
pub proof fn lemma_answer_operation_values(left: AnswerValue, right: AnswerValue, third: AnswerValue)
    ensures
        ({
            let v = rational_value(
                AnswerValue::Binary {
                    operator: AnswerBinaryOperator::Add,
                    left: Box::new(left),
                    right: Box::new(right),
                },
            );
            (v matches Some(s) ==> rational_value(left) is Some && rational_value(right) is Some && {
                let l = rational_value(left)->0;
                let r = rational_value(right)->0;
                denotes(s, l.numerator * r.denominator + r.numerator * l.denominator, l.denominator * r.denominator)
            })
        }),
        ({
            let v = rational_value(
                AnswerValue::Binary {
                    operator: AnswerBinaryOperator::Subtract,
                    left: Box::new(left),
                    right: Box::new(right),
                },
            );
            (v matches Some(s) ==> rational_value(left) is Some && rational_value(right) is Some && {
                let l = rational_value(left)->0;
                let r = rational_value(right)->0;
                denotes(s, l.numerator * r.denominator - r.numerator * l.denominator, l.denominator * r.denominator)
            })
        }),
        ({
            let v = rational_value(
                AnswerValue::Binary {
                    operator: AnswerBinaryOperator::Multiply,
                    left: Box::new(left),
                    right: Box::new(right),
                },
            );
            (v matches Some(s) ==> rational_value(left) is Some && rational_value(right) is Some && {
                let l = rational_value(left)->0;
                let r = rational_value(right)->0;
                denotes(s, l.numerator * r.numerator, l.denominator * r.denominator)
            })
        }),
        ({
            let v = rational_value(AnswerValue::Fraction { numerator: Box::new(left), denominator: Box::new(right) });
            (v matches Some(s) ==> rational_value(left) is Some && rational_value(right) is Some && {
                let l = rational_value(left)->0;
                let r = rational_value(right)->0;
                r.numerator != 0 && denotes(s, l.numerator * r.denominator, l.denominator * r.numerator)
            })
        }),
        ({
            let v = rational_value(
                AnswerValue::MixedFraction {
                    whole: Box::new(left),
                    numerator: Box::new(right),
                    denominator: Box::new(third),
                },
            );
            (v matches Some(s) ==> rational_value(left) is Some && rational_value(right) is Some && rational_value(
                third,
            ) is Some && {
                let w = rational_value(left)->0;
                let n = rational_value(right)->0;
                let d = rational_value(third)->0;
                d.numerator != 0 && denotes(
                    s,
                    w.numerator * n.denominator * d.numerator + n.numerator * d.denominator * w.denominator,
                    w.denominator * n.denominator * d.numerator,
                )
            })
        }),
        ({
            let v = rational_value(AnswerValue::Negative(Box::new(left)));
            (v matches Some(s) ==> rational_value(left) is Some && {
                let l = rational_value(left)->0;
                denotes(s, -l.numerator, l.denominator as int)
            })
        }),
{
    lemma_rational_value_reduced(left);
    lemma_rational_value_reduced(right);
    lemma_rational_value_reduced(third);
    if let (Some(l), Some(r)) = (rational_value(left), rational_value(right)) {
        lemma_add_denotes(l, r);
        lemma_multiply_denotes(l, r);
        lemma_divide_denotes(l, r);
        lemma_negate_denotes(r);
        lemma_ops_reduced(r, r);
        if let Some(n) = r.spec_negate() {
            lemma_add_denotes(l, n);
            if let Some(v) = l.spec_add(n) {
                lemma_difference_cancel(
                    v.numerator as int,
                    v.denominator as int,
                    l.numerator as int,
                    l.denominator as int,
                    r.numerator as int,
                    r.denominator as int,
                    n.numerator as int,
                    n.denominator as int,
                );
            }
        }
        if let Some(d) = rational_value(third) {
            lemma_divide_denotes(r, d);
            lemma_ops_reduced(r, d);
            if let Some(q) = r.spec_divide(d) {
                lemma_add_denotes(l, q);
                if let Some(s) = l.spec_add(q) {
                    lemma_mixed_cancel(
                        s.numerator as int,
                        s.denominator as int,
                        l.numerator as int,
                        l.denominator as int,
                        r.numerator as int,
                        r.denominator as int,
                        d.numerator as int,
                        d.denominator as int,
                        q.numerator as int,
                        q.denominator as int,
                    );
                }
            }
        }
    }
    if let Some(l) = rational_value(left) {
        lemma_negate_denotes(l);
    }
}

/// What the leaves and roots of an answer mean: an integer `x` is `x / 1`,
/// an exact decimal with coefficient `c` and scale `s` is `c / 10^s`, and
/// the square root of `R` is a nonnegative rational whose square is `R`.
pub proof fn lemma_answer_leaf_values(x: i64, c: i64, scale: u32, radicand: AnswerValue)
    ensures
        rational_value(AnswerValue::Integer(x)) matches Some(r) && denotes(r, x as int, 1),
        rational_value(AnswerValue::ExactDecimal { coefficient: c, scale }) matches Some(r) ==> denotes(
            r,
            c as int,
            pow10(scale as nat),
        ),
        ({
            let v = rational_value(AnswerValue::Root { radicand: Box::new(radicand), index: None });
            (v matches Some(s) ==> rational_value(radicand) is Some && s.numerator >= 0 && {
                let r = rational_value(radicand)->0;
                s.numerator * s.numerator * r.denominator == r.numerator * (s.denominator * s.denominator)
            })
        }),
{
    if pow10(scale as nat) <= i128::MAX {
        lemma_pow10_positive(scale as nat);
        crate::exact::lemma_spec_new_value(c as int, pow10(scale as nat));
    }
    lemma_rational_value_reduced(radicand);
    if let Some(r) = rational_value(radicand) {
        lemma_ops_reduced(r, r);
        if r.numerator >= 0 {
            match (crate::exact::exact_sqrt(r.numerator as nat), crate::exact::exact_sqrt(r.denominator as nat)) {
                (Some(a), Some(b)) => {
                    assert(a * a == r.numerator as nat);
                    assert(b * b == r.denominator as nat);
                    assert(a <= a * a && b <= b * b) by (nonlinear_arith);
                    crate::exact::lemma_spec_new_value(a as int, b as int);
                    crate::exact::lemma_spec_new_facts(a as int, b as int);
                    let s = ExactRational::spec_new(a as int, b as int)->0;
                    let sn = s.numerator as int;
                    let sd = s.denominator as int;
                    assert(b > 0) by (nonlinear_arith)
                        requires
                            b * b == r.denominator as nat,
                            r.denominator > 0,
                    ;
                    assert(sn >= 0) by (nonlinear_arith)
                        requires
                            sn * b == a * sd,
                            sd > 0,
                            b > 0,
                            a >= 0,
                    ;
                    assert((sn * b) * (sn * b) == (a * sd) * (a * sd));
                    assert(sn * sn * (b * b) == (a * a) * (sd * sd)) by (nonlinear_arith)
                        requires
                            (sn * b) * (sn * b) == (a * sd) * (a * sd),
                    ;
                },
                _ => {},
            }
        }
    }
}

pub fn rational_from_answer(answer: &AnswerNode) -> (r: Option<ExactRational>)
    ensures
        r == rational_value(answer@),
        r matches Some(v) ==> v.is_canonical(),
    decreases answer,
{
    match answer {
        AnswerNode::Integer(value) => Some(ExactRational::from_integer(*value)),
        AnswerNode::ExactDecimal { coefficient, scale } => match checked_pow10_i128(*scale) {
            Some(p) => ExactRational::new(*coefficient as i128, p),
            None => None,
        },
        AnswerNode::Fraction { numerator, denominator } => {
            let n = match rational_from_answer(numerator) {
                Some(n) => n,
                None => return None,
            };
            let d = match rational_from_answer(denominator) {
                Some(d) => d,
                None => return None,
            };
            n.divide(d)
        },
        AnswerNode::MixedFraction { whole, numerator, denominator } => {
            let w = match rational_from_answer(whole) {
                Some(w) => w,
                None => return None,
            };
            let n = match rational_from_answer(numerator) {
                Some(n) => n,
                None => return None,
            };
            let d = match rational_from_answer(denominator) {
                Some(d) => d,
                None => return None,
            };
            match n.divide(d) {
                Some(q) => w.add(q),
                None => None,
            }
        },
        AnswerNode::Negative(value) => match rational_from_answer(value) {
            Some(v) => v.negate(),
            None => None,
        },
        AnswerNode::Binary { operator, left, right } => {
            let l = match rational_from_answer(left) {
                Some(l) => l,
                None => return None,
            };
            let r = match rational_from_answer(right) {
                Some(r) => r,
                None => return None,
            };
            match operator {
                AnswerBinaryOperator::Add => l.add(r),
                AnswerBinaryOperator::Subtract => l.subtract(r),
                AnswerBinaryOperator::Multiply => l.multiply(r),
            }
        },
        AnswerNode::Root { radicand, index: None } => match rational_from_answer(radicand) {
            Some(v) => v.square_root(),
            None => None,
        },
        _ => None,
    }
}

pub fn rational_parts_from_answer(answer: &AnswerNode) -> (r: Option<(i128, i128)>)
    ensures
        r == (match rational_value(answer@) {
            Some(v) => Some((v.numerator, v.denominator)),
            None => None,
        }),
{
    match rational_from_answer(answer) {
        Some(v) => Some((v.numerator(), v.denominator())),
        None => None,
    }
}

} // verus!
