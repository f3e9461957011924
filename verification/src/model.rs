//! Core domain values: exact coefficients, answer schemas, input capabilities
//! and grading results.

use vstd::prelude::*;
use crate::answer::{is_generated, within_node_limit, AnswerNode, AnswerValue};
use crate::error::EditorError;
use crate::exact::{abs_int, gcd_spec, in_i128, ExactRational};
use crate::exact_value::{rational_from_answer, rational_value};
use crate::normalize::in_i64;
use crate::theme::{DigitGridSpec, ThemePromptKind};
use crate::identity::Difficulty;
use crate::schema::SCHEMA_VERSION;

verus! {

pub use crate::answer::MAX_ANSWER_AST_SIZE;

/// A reduced rational coefficient with a positive `i64` denominator.
#[derive(Clone, Copy, Debug, PartialEq, Eq, PartialOrd, Ord, Hash, Structural)]
pub struct RationalCoefficient {
    numerator: i64,
    denominator: i64,
}

impl View for RationalCoefficient {
    type V = (i64, i64);

    closed spec fn view(&self) -> (i64, i64) {
        (self.numerator, self.denominator)
    }
}

/// An exact rational as a coefficient, when both parts fit `i64`.
pub open spec fn coefficient_from_exact(r: ExactRational) -> Option<(i64, i64)> {
    if in_i64(r.numerator as int) && in_i64(r.denominator as int) {
        Some((r.numerator as i64, r.denominator as i64))
    } else {
        None
    }
}

pub open spec fn exact_of(c: (i64, i64)) -> Option<ExactRational> {
    ExactRational::spec_new(c.0 as int, c.1 as int)
}

pub open spec fn coefficient_new(numerator: int, denominator: int) -> Option<(i64, i64)> {
    match ExactRational::spec_new(numerator, denominator) {
        Some(r) => coefficient_from_exact(r),
        None => None,
    }
}

pub open spec fn coefficient_op(
    a: (i64, i64),
    b: (i64, i64),
    op: spec_fn(ExactRational, ExactRational) -> Option<ExactRational>,
) -> Option<(i64, i64)> {
    match (exact_of(a), exact_of(b)) {
        (Some(x), Some(y)) => match op(x, y) {
            Some(r) => coefficient_from_exact(r),
            None => None,
        },
        _ => None,
    }
}

/// The exact sum of two coefficients, when it is one.
pub open spec fn coefficient_sum(a: (i64, i64), b: (i64, i64)) -> Option<(i64, i64)> {
    coefficient_op(a, b, |x: ExactRational, y: ExactRational| x.spec_add(y))
}

/// The exact difference of two coefficients, when it is one.
pub open spec fn coefficient_difference(a: (i64, i64), b: (i64, i64)) -> Option<(i64, i64)> {
    coefficient_op(a, b, |x: ExactRational, y: ExactRational| x.spec_subtract(y))
}

/// The exact product of two coefficients, when it is one.
pub open spec fn coefficient_product(a: (i64, i64), b: (i64, i64)) -> Option<(i64, i64)> {
    coefficient_op(a, b, |x: ExactRational, y: ExactRational| x.spec_multiply(y))
}

/// The exact quotient of two coefficients, when it is one.
pub open spec fn coefficient_quotient(a: (i64, i64), b: (i64, i64)) -> Option<(i64, i64)> {
    coefficient_op(a, b, |x: ExactRational, y: ExactRational| x.spec_divide(y))
}

/// A coefficient in lowest terms: a positive denominator, no common factor,
/// and zero written `0/1`.
pub open spec fn coefficient_canonical(c: (i64, i64)) -> bool {
    &&& c.1 > 0
    &&& c.0 == 0 ==> c.1 == 1
    &&& gcd_spec(abs_int(c.0 as int), c.1 as nat) == 1
}

impl RationalCoefficient {
    /// Every coefficient is in lowest terms.
    #[verifier::type_invariant]
    spec fn canonical(self) -> bool {
        coefficient_canonical((self.numerator, self.denominator))
    }

    fn from_exact(value: ExactRational) -> (r: Option<Self>)
        requires
            value.is_canonical(),
            value.is_reduced(),
        ensures
            match coefficient_from_exact(value) {
                Some(c) => r matches Some(x) && x@ == c,
                None => r is None,
            },
    {
        if value.numerator < -9223372036854775808i128 || value.numerator > 9223372036854775807i128
            || value.denominator < -9223372036854775808i128 || value.denominator
            > 9223372036854775807i128 {
            return None;
        }
        Some(Self { numerator: value.numerator as i64, denominator: value.denominator as i64 })
    }

    fn as_exact(self) -> (r: Option<ExactRational>)
        ensures
            r == exact_of(self@),
            r matches Some(x) ==> x.is_canonical(),
    {
        ExactRational::new(self.numerator as i128, self.denominator as i128)
    }

    /// The reduced coefficient `numerator/denominator`, when the denominator is
    /// nonzero and the reduced parts fit `i64`.
    pub fn new(numerator: i64, denominator: i64) -> (r: Option<Self>)
        ensures
            match coefficient_new(numerator as int, denominator as int) {
                Some(c) => r matches Some(x) && x@ == c,
                None => r is None,
            },
    {
        match ExactRational::new(numerator as i128, denominator as i128) {
            Some(v) => Self::from_exact(v),
            None => None,
        }
    }

    pub fn zero() -> (r: Self)
        ensures
            r@ == (0i64, 1i64),
    {
        proof {
            reveal_with_fuel(gcd_spec, 2);
        }
        Self { numerator: 0, denominator: 1 }
    }

    pub fn numerator(self) -> (r: i64)
        ensures
            r == self@.0,
            coefficient_canonical(self@),
    {
        proof {
            use_type_invariant(&self);
        }
        self.numerator
    }

    pub fn denominator(self) -> (r: i64)
        ensures
            r == self@.1,
            coefficient_canonical(self@),
    {
        proof {
            use_type_invariant(&self);
        }
        self.denominator
    }

    /// Whether the coefficient is zero; the one zero is `0/1`.
    pub fn is_zero(self) -> (r: bool)
        ensures
            r == (self@.0 == 0),
            r == (self@ == (0i64, 1i64)),
            coefficient_canonical(self@),
    {
        proof {
            use_type_invariant(&self);
        }
        self.numerator == 0
    }

    pub fn is_integer(self) -> (r: bool)
        ensures
            r == (self@.1 == 1),
    {
        self.denominator == 1
    }

    pub fn checked_add(self, other: Self) -> (r: Option<Self>)
        ensures
            match coefficient_sum(self@, other@) {
                Some(c) => r matches Some(x) && x@ == c,
                None => r is None,
            },
    {
        let a = match self.as_exact() {
            Some(a) => a,
            None => return None,
        };
        let b = match other.as_exact() {
            Some(b) => b,
            None => return None,
        };
        match a.add(b) {
            Some(v) => Self::from_exact(v),
            None => None,
        }
    }

    pub fn subtract(self, other: Self) -> (r: Option<Self>)
        ensures
            match coefficient_difference(self@, other@) {
                Some(c) => r matches Some(x) && x@ == c,
                None => r is None,
            },
    {
        let a = match self.as_exact() {
            Some(a) => a,
            None => return None,
        };
        let b = match other.as_exact() {
            Some(b) => b,
            None => return None,
        };
        match a.subtract(b) {
            Some(v) => Self::from_exact(v),
            None => None,
        }
    }

    pub fn multiply(self, other: Self) -> (r: Option<Self>)
        ensures
            match coefficient_product(self@, other@) {
                Some(c) => r matches Some(x) && x@ == c,
                None => r is None,
            },
    {
        let a = match self.as_exact() {
            Some(a) => a,
            None => return None,
        };
        let b = match other.as_exact() {
            Some(b) => b,
            None => return None,
        };
        match a.multiply(b) {
            Some(v) => Self::from_exact(v),
            None => None,
        }
    }

    pub fn divide(self, other: Self) -> (r: Option<Self>)
        ensures
            match coefficient_quotient(self@, other@) {
                Some(c) => r matches Some(x) && x@ == c,
                None => r is None,
            },
    {
        let a = match self.as_exact() {
            Some(a) => a,
            None => return None,
        };
        let b = match other.as_exact() {
            Some(b) => b,
            None => return None,
        };
        match a.divide(b) {
            Some(v) => Self::from_exact(v),
            None => None,
        }
    }
}

proof fn lemma_exact_of_canonical(a: (i64, i64))
    requires
        coefficient_canonical(a),
    ensures
        exact_of(a) == Some(crate::exact::rat(a.0 as int, a.1 as int)),
        coefficient_from_exact(crate::exact::rat(a.0 as int, a.1 as int)) == Some(a),
{
    if a.0 != 0 {
        let g = gcd_spec(abs_int(a.0 as int), a.1 as nat);
        assert(g == 1);
        assert(a.0 as int / 1 == a.0 as int);
        assert(a.1 as int / 1 == a.1 as int);
    }
}

proof fn lemma_unit_coefficients_canonical()
    ensures
        coefficient_canonical((0i64, 1i64)),
        coefficient_canonical((1i64, 1i64)),
{
    reveal_with_fuel(gcd_spec, 2);
}

/// Every coefficient that `new` builds is in lowest terms, and zero over
/// any nonzero denominator is `0/1`.
pub proof fn lemma_coefficient_new_canonical(numerator: i64, denominator: i64)
    ensures
        coefficient_new(numerator as int, denominator as int) matches Some(c) ==> coefficient_canonical(c),
        numerator == 0 && denominator != 0 ==> coefficient_new(numerator as int, denominator as int) == Some((0i64, 1i64)),
{
    crate::exact::lemma_spec_new_facts(numerator as int, denominator as int);
}

/// A coefficient that `new` builds denotes the fraction it was given:
/// `c.0 / c.1 == numerator / denominator`, by cross-multiplication.
pub proof fn lemma_coefficient_new_value(numerator: i64, denominator: i64)
    ensures
        coefficient_new(numerator as int, denominator as int) matches Some(c) ==> c.0 * denominator == numerator
            * c.1,
{
    crate::exact::lemma_spec_new_value(numerator as int, denominator as int);
}

proof fn lemma_cross_cancel(r0: int, r1: int, e0: int, e1: int, a0: int, a1: int, b0: int, b1: int)
    requires
        e0 * (a1 * b0) == (a0 * b1) * e1,
        r0 * (e1 * b1) == (e0 * b0) * r1,
        e1 > 0,
        b1 > 0,
    ensures
        r0 * a1 == a0 * r1,
{
    let t = r0 * a1 - a0 * r1;
    assert(a1 * (r0 * (e1 * b1)) == t * (e1 * b1) + a0 * r1 * (e1 * b1)) by (nonlinear_arith)
        requires
            t == r0 * a1 - a0 * r1,
    ;
    assert(a1 * ((e0 * b0) * r1) == r1 * (e0 * (a1 * b0))) by (nonlinear_arith);
    assert(r1 * ((a0 * b1) * e1) == a0 * r1 * (e1 * b1)) by (nonlinear_arith);
    assert(t * (e1 * b1) == 0);
    assert(e1 * b1 > 0) by (nonlinear_arith)
        requires
            e1 > 0,
            b1 > 0,
    ;
    assert(t == 0) by (nonlinear_arith)
        requires
            t * (e1 * b1) == 0,
            e1 * b1 > 0,
    ;
}

/// Dividing by a coefficient and multiplying by it again gives back what
/// was divided.
pub proof fn lemma_coefficient_quotient_times_divisor(a: (i64, i64), b: (i64, i64))
    requires
        coefficient_canonical(a),
        coefficient_canonical(b),
        coefficient_quotient(a, b) is Some,
    ensures
        coefficient_product(coefficient_quotient(a, b)->0, b) == Some(a),
{
    lemma_exact_of_canonical(a);
    lemma_exact_of_canonical(b);
    let n = a.0 * b.1;
    let d = a.1 * b.0;
    assert(in_i128(n) && in_i128(d)) by (nonlinear_arith)
        requires
            i64::MIN <= a.0 <= i64::MAX,
            i64::MIN <= a.1 <= i64::MAX,
            i64::MIN <= b.0 <= i64::MAX,
            i64::MIN <= b.1 <= i64::MAX,
            n == a.0 * b.1,
            d == a.1 * b.0,
    ;
    crate::exact::lemma_spec_new_facts(n, d);
    crate::exact::lemma_spec_new_value(n, d);
    let e = ExactRational::spec_new(n, d)->0;
    let q = coefficient_quotient(a, b)->0;
    assert(q.0 == e.numerator && q.1 == e.denominator);
    assert(coefficient_canonical(q));
    lemma_exact_of_canonical(q);
    let pn = q.0 * b.0;
    let pd = q.1 * b.1;
    assert(in_i128(pn) && in_i128(pd) && pd > 0) by (nonlinear_arith)
        requires
            i64::MIN <= q.0 <= i64::MAX,
            0 < q.1 <= i64::MAX,
            i64::MIN <= b.0 <= i64::MAX,
            0 < b.1 <= i64::MAX,
            pn == q.0 * b.0,
            pd == q.1 * b.1,
    ;
    crate::exact::lemma_spec_new_facts(pn, pd);
    crate::exact::lemma_spec_new_value(pn, pd);
    let r = ExactRational::spec_new(pn, pd)->0;
    lemma_cross_cancel(
        r.numerator as int,
        r.denominator as int,
        q.0 as int,
        q.1 as int,
        a.0 as int,
        a.1 as int,
        b.0 as int,
        b.1 as int,
    );
    crate::exact::lemma_lowest_terms_unique(r.numerator as int, r.denominator as int, a.0 as int, a.1 as int);
}

/// Adding zero, on either side, leaves a coefficient as it is.
pub proof fn lemma_coefficient_add_zero(a: (i64, i64))
    requires
        coefficient_canonical(a),
    ensures
        coefficient_sum(a, (0i64, 1i64)) == Some(a),
        coefficient_sum((0i64, 1i64), a) == Some(a),
{
    lemma_exact_of_canonical(a);
    lemma_unit_coefficients_canonical();
    lemma_exact_of_canonical((0i64, 1i64));
    assert(a.0 * 1 == a.0 && 0 * a.1 == 0 && a.1 * 1 == a.1 && 1 * a.1 == a.1 && 1 * a.0 == a.0);
}

/// Addition of coefficients does not depend on the order of the terms.
pub proof fn lemma_coefficient_sum_commutes(a: (i64, i64), b: (i64, i64))
    ensures
        coefficient_sum(a, b) == coefficient_sum(b, a),
{
    match (exact_of(a), exact_of(b)) {
        (Some(x), Some(y)) => {
            assert(x.denominator * y.denominator == y.denominator * x.denominator) by (nonlinear_arith);
        },
        _ => {},
    }
}

/// A coefficient minus itself is zero, and minus zero is itself.
pub proof fn lemma_coefficient_difference_identities(a: (i64, i64))
    requires
        coefficient_canonical(a),
    ensures
        coefficient_difference(a, a) == Some((0i64, 1i64)),
        coefficient_difference(a, (0i64, 1i64)) == Some(a),
{
    lemma_exact_of_canonical(a);
    lemma_unit_coefficients_canonical();
    lemma_exact_of_canonical((0i64, 1i64));
    let x = crate::exact::rat(a.0 as int, a.1 as int);
    crate::exact::lemma_negate_reduced(x);
    assert(a.0 * a.1 + (-a.0) * a.1 == 0) by (nonlinear_arith);
    assert(crate::exact::in_i128(a.0 * a.1) && crate::exact::in_i128((-a.0) * a.1) && crate::exact::in_i128(
        a.1 * a.1,
    ) && a.1 * a.1 > 0) by (nonlinear_arith)
        requires
            i64::MIN <= a.0 <= i64::MAX,
            0 < a.1 <= i64::MAX,
    ;
    let y = crate::exact::rat(-a.0, a.1 as int);
    assert(x.spec_add(y) == Some(crate::exact::rat(0, 1)));
    assert(a.0 * 1 == a.0 && 0 * a.1 == 0 && a.1 * 1 == a.1);
}

/// Multiplying by one leaves a coefficient as it is, multiplying by zero
/// gives zero, and the order of the factors does not matter.
pub proof fn lemma_coefficient_product_identities(a: (i64, i64), b: (i64, i64))
    requires
        coefficient_canonical(a),
    ensures
        coefficient_product(a, (1i64, 1i64)) == Some(a),
        coefficient_product(a, (0i64, 1i64)) == Some((0i64, 1i64)),
        coefficient_product(a, b) == coefficient_product(b, a),
{
    lemma_exact_of_canonical(a);
    lemma_unit_coefficients_canonical();
    lemma_exact_of_canonical((0i64, 1i64));
    lemma_exact_of_canonical((1i64, 1i64));
    assert(a.0 * 1 == a.0 && a.0 * 0 == 0 && a.1 * 1 == a.1);
    match (exact_of(a), exact_of(b)) {
        (Some(x), Some(y)) => {
            assert(x.numerator * y.numerator == y.numerator * x.numerator) by (nonlinear_arith);
            assert(x.denominator * y.denominator == y.denominator * x.denominator) by (nonlinear_arith);
        },
        _ => {},
    }
}

/// Division by zero has no result, and a nonzero coefficient divided by
/// itself is one.
pub proof fn lemma_coefficient_quotient_identities(a: (i64, i64), b: (i64, i64))
    requires
        coefficient_canonical(a),
        coefficient_canonical(b),
    ensures
        b.0 == 0 ==> coefficient_quotient(a, b) is None,
        a.0 != 0 ==> coefficient_quotient(a, a) == Some((1i64, 1i64)),
{
    lemma_exact_of_canonical(a);
    lemma_exact_of_canonical(b);
    if a.0 != 0 {
        let p = a.0 * a.1;
        assert(a.1 * a.0 == p) by (nonlinear_arith)
            requires
                p == a.0 * a.1,
        ;
        assert(i128::MIN < p <= i128::MAX && p != 0) by (nonlinear_arith)
            requires
                i64::MIN <= a.0 <= i64::MAX,
                0 < a.1 <= i64::MAX,
                a.0 != 0,
                p == a.0 * a.1,
        ;
        crate::exact::lemma_spec_new_self(p);
    }
}

pub fn rational_coefficient_from_answer(answer: &AnswerNode) -> (r: Option<RationalCoefficient>)
    ensures
        match rational_value(answer@) {
            Some(v) => if in_i64(v.numerator as int) && in_i64(v.denominator as int) {
                match coefficient_new(v.numerator as int, v.denominator as int) {
                    Some(c) => r matches Some(x) && x@ == c,
                    None => r is None,
                }
            } else {
                r is None
            },
            None => r is None,
        },
{
    let value = match rational_from_answer(answer) {
        Some(v) => v,
        None => return None,
    };
    if value.numerator < -9223372036854775808i128 || value.numerator > 9223372036854775807i128
        || value.denominator < -9223372036854775808i128 || value.denominator
        > 9223372036854775807i128 {
        return None;
    }
    RationalCoefficient::new(value.numerator as i64, value.denominator as i64)
}


#[derive(Clone, Copy, Debug, Default, PartialEq, Eq, Structural)]
pub enum EditorStructure {
    #[default]
    Fraction,
    MixedFraction,
    Decimal,
    Root,
    Negative,
    PlusMinus,
    Tuple,
    Arithmetic,
}


#[derive(Clone, Debug, PartialEq, Eq)]
pub enum AnswerInputInterface {
    SimpleNumeric { allow_decimal: bool, allow_negative: bool },
    StructuredMath { allowed_structures: Vec<EditorStructure> },
    DigitGrid { min_digit: u8, max_digit: u8, cell_count: u8 },
}

pub open spec fn no_duplicate_structures(s: Seq<EditorStructure>) -> bool {
    forall|i: int, j: int| 0 <= i < j < s.len() ==> s[i] != s[j]
}

impl AnswerInputInterface {
    pub open spec fn structurally_valid(&self) -> bool {
        match *self {
            AnswerInputInterface::SimpleNumeric { .. } => true,
            AnswerInputInterface::StructuredMath { allowed_structures } => allowed_structures@.len()
                > 0 && no_duplicate_structures(allowed_structures@),
            AnswerInputInterface::DigitGrid { min_digit, max_digit, cell_count } => min_digit
                <= max_digit && cell_count > 0,
        }
    }

    pub open spec fn allows(&self, structure: EditorStructure) -> bool {
        match *self {
            AnswerInputInterface::SimpleNumeric { allow_decimal, allow_negative } => match structure {
                EditorStructure::Decimal => allow_decimal,
                EditorStructure::Negative => allow_negative,
                _ => false,
            },
            AnswerInputInterface::StructuredMath { allowed_structures } => allowed_structures@.contains(
                structure,
            ),
            AnswerInputInterface::DigitGrid { .. } => false,
        }
    }

    pub fn is_structurally_valid(&self) -> (r: bool)
        ensures
            r == self.structurally_valid(),
    {
        match self {
            Self::SimpleNumeric { .. } => true,
            Self::StructuredMath { allowed_structures } => {
                if allowed_structures.len() == 0 {
                    return false;
                }
                let mut j: usize = 0;
                while j < allowed_structures.len()
                    invariant
                        *self == (Self::StructuredMath { allowed_structures: *allowed_structures }),
                        j <= allowed_structures@.len(),
                        forall|a: int, b: int| 0 <= a < b < j ==> allowed_structures@[a] != allowed_structures@[b],
                    decreases allowed_structures@.len() - j,
                {
                    let mut i: usize = 0;
                    while i < j
                        invariant
                            *self == (Self::StructuredMath { allowed_structures: *allowed_structures }),
                            i <= j < allowed_structures@.len(),
                            forall|a: int| 0 <= a < i ==> allowed_structures@[a] != allowed_structures@[j as int],
                        decreases j - i,
                    {
                        if allowed_structures[i] == allowed_structures[j] {
                            return false;
                        }
                        i += 1;
                    }
                    j += 1;
                }
                true
            },
            Self::DigitGrid { min_digit, max_digit, cell_count } => *min_digit <= *max_digit
                && *cell_count > 0,
        }
    }

    pub fn allows_structure(&self, structure: EditorStructure) -> (r: bool)
        ensures
            r == self.allows(structure),
    {
        match self {
            Self::SimpleNumeric { allow_decimal, allow_negative } => match structure {
                EditorStructure::Decimal => *allow_decimal,
                EditorStructure::Negative => *allow_negative,
                _ => false,
            },
            Self::StructuredMath { allowed_structures } => {
                let mut i: usize = 0;
                while i < allowed_structures.len()
                    invariant
                        *self == (Self::StructuredMath { allowed_structures: *allowed_structures }),
                        i <= allowed_structures@.len(),
                        forall|a: int| 0 <= a < i ==> allowed_structures@[a] != structure,
                    decreases allowed_structures@.len() - i,
                {
                    if allowed_structures[i] == structure {
                        return true;
                    }
                    i += 1;
                }
                false
            },
            Self::DigitGrid { .. } => false,
        }
    }

    /// Validates one parsed answer against this input capability contract.
    pub fn validate_answer(&self, answer: &AnswerNode) -> (r: Result<(), EditorError>)
        ensures
            r == (if !self.structurally_valid() {
                Err(EditorError::InputInterfaceViolation)
            } else if !crate::answer::within_size_limit(answer@) {
                Err(EditorError::AnswerSizeLimit { max_size: MAX_ANSWER_AST_SIZE })
            } else {
                crate::input::capability_check(answer@, *self)
            }),
    {
        if !self.is_structurally_valid() {
            return Err(EditorError::InputInterfaceViolation);
        }
        if !answer.is_within_size_limit() {
            return Err(EditorError::AnswerSizeLimit { max_size: MAX_ANSWER_AST_SIZE });
        }
        crate::input::ensure_capability(answer, self)
    }
}

#[derive(Clone, Copy, Debug, PartialEq, Eq, Structural)]
pub enum AnswerSchema {
    Integer { min: i64, max: i64 },
    Rational { max_abs_numerator: u32, max_denominator: u32, require_reduced_fraction_form: bool },
    Decimal { max_scale: u32 },
    DecimalDivisionRemainder { quotient_scale: u32, remainder_max_scale: u32 },
    RoundedDecimal { scale: u32 },
    OrderedPair,
    OrderedTuple { length: u8 },
    Algebraic,
}

pub open spec fn accepts_decimal(v: AnswerValue, max_scale: u32) -> bool {
    match v {
        AnswerValue::Integer(_) => true,
        AnswerValue::ExactDecimal { scale, .. } => scale <= max_scale,
        _ => false,
    }
}

impl AnswerSchema {
    pub open spec fn structurally_valid(self) -> bool {
        match self {
            AnswerSchema::Integer { min, max } => min <= max,
            AnswerSchema::Rational { max_denominator, .. } => max_denominator > 0,
            AnswerSchema::OrderedTuple { length } => length > 0,
            _ => true,
        }
    }

    /// Whether a generated canonical answer lies in this schema.
    pub open spec fn accepts(self, a: AnswerValue) -> bool {
        if !within_node_limit(a) || !is_generated(a) {
            false
        } else {
            match self {
                AnswerSchema::Integer { min, max } => match rational_value(a) {
                    Some(r) => r.denominator == 1 && min <= r.numerator && r.numerator <= max,
                    None => false,
                },
                AnswerSchema::Rational { max_abs_numerator, max_denominator, .. } => match rational_value(a) {
                    Some(r) => crate::exact::abs_int(r.numerator as int) <= max_abs_numerator
                        && r.denominator > 0 && r.denominator <= max_denominator,
                    None => false,
                },
                AnswerSchema::Decimal { max_scale } => accepts_decimal(a, max_scale),
                AnswerSchema::RoundedDecimal { scale } => accepts_decimal(a, scale),
                AnswerSchema::DecimalDivisionRemainder { quotient_scale, remainder_max_scale } => match a {
                    AnswerValue::Tuple(vs) => vs.len() == 2 && accepts_decimal(vs[0], quotient_scale)
                        && accepts_decimal(vs[1], remainder_max_scale),
                    _ => false,
                },
                AnswerSchema::OrderedPair => match a {
                    AnswerValue::Tuple(vs) => vs.len() == 2,
                    _ => false,
                },
                AnswerSchema::OrderedTuple { length } => match a {
                    AnswerValue::Tuple(vs) => vs.len() == length,
                    _ => false,
                },
                AnswerSchema::Algebraic => true,
            }
        }
    }

    pub fn is_structurally_valid(&self) -> (r: bool)
        ensures
            r == self.structurally_valid(),
    {
        match self {
            Self::Integer { min, max } => *min <= *max,
            Self::Rational { max_denominator, .. } => *max_denominator > 0,
            Self::OrderedTuple { length } => *length > 0,
            _ => true,
        }
    }

    pub fn accepts_canonical_answer(&self, answer: &AnswerNode) -> (r: bool)
        ensures
            r == self.accepts(answer@),
    {
        if !answer.is_within_structural_node_limit() || !answer.is_generated_answer() {
            return false;
        }
        match self {
            Self::Integer { min, max } => match rational_from_answer(answer) {
                Some(r) => r.denominator == 1 && (*min as i128) <= r.numerator && r.numerator
                    <= (*max as i128),
                None => false,
            },
            Self::Rational { max_abs_numerator, max_denominator, .. } => match rational_from_answer(answer) {
                Some(r) => crate::exact::abs_u128(r.numerator) <= (*max_abs_numerator as u128)
                    && r.denominator > 0 && (r.denominator as u128) <= (*max_denominator as u128),
                None => false,
            },
            Self::Decimal { max_scale } => decimal_within(answer, *max_scale),
            Self::RoundedDecimal { scale } => decimal_within(answer, *scale),
            Self::DecimalDivisionRemainder { quotient_scale, remainder_max_scale } => match answer {
                AnswerNode::Tuple(values) => {
                    proof {
                        crate::answer::lemma_view_nodes(values@, values@.len());
                    }
                    values.len() == 2 && decimal_within(&values[0], *quotient_scale)
                        && decimal_within(&values[1], *remainder_max_scale)
                },
                _ => false,
            },
            Self::OrderedPair => match answer {
                AnswerNode::Tuple(values) => {
                    proof {
                        crate::answer::lemma_view_nodes(values@, values@.len());
                    }
                    values.len() == 2
                },
                _ => false,
            },
            Self::OrderedTuple { length } => match answer {
                AnswerNode::Tuple(values) => {
                    proof {
                        crate::answer::lemma_view_nodes(values@, values@.len());
                    }
                    values.len() == *length as usize
                },
                _ => false,
            },
            Self::Algebraic => true,
        }
    }
}

fn decimal_within(value: &AnswerNode, max_scale: u32) -> (r: bool)
    ensures
        r == accepts_decimal(value@, max_scale),
{
    match value {
        AnswerNode::Integer(_) => true,
        AnswerNode::ExactDecimal { scale, .. } => *scale <= max_scale,
        _ => false,
    }
}

#[derive(Clone, Copy, Debug, PartialEq, Eq, Structural)]
pub enum GradeStatus {
    Correct,
    Incorrect,
    Unanswered,
}

/// Stable warning identifiers; client copy is owned by the client.
#[derive(Clone, Copy, Debug, PartialEq, Eq, Structural)]
pub enum GradeWarning {
    FractionNotReduced,
    RedundantNegative,
    RedundantPlusMinus,
    RedundantDecimal,
    DuplicateSolution,
    SolutionListRequired,
    FractionFormRequired,
    MixedFractionFormRequired,
    IntegerFormRequired,
}

impl GradeWarning {
    /// The stable wire code of the warning.
    pub fn code(self) -> (r: &'static str)
        ensures
            r@ == grade_warning_code(self),
    {
        match self {
            Self::FractionNotReduced => "fraction_not_reduced",
            Self::RedundantNegative => "redundant_negative",
            Self::RedundantPlusMinus => "redundant_plus_minus",
            Self::RedundantDecimal => "redundant_decimal",
            Self::DuplicateSolution => "duplicate_solution",
            Self::SolutionListRequired => "solution_list_required",
            Self::FractionFormRequired => "fraction_form_required",
            Self::MixedFractionFormRequired => "mixed_fraction_form_required",
            Self::IntegerFormRequired => "integer_form_required",
        }
    }
}

pub open spec fn grade_warning_code(w: GradeWarning) -> Seq<char> {
    match w {
        GradeWarning::FractionNotReduced => "fraction_not_reduced"@,
        GradeWarning::RedundantNegative => "redundant_negative"@,
        GradeWarning::RedundantPlusMinus => "redundant_plus_minus"@,
        GradeWarning::RedundantDecimal => "redundant_decimal"@,
        GradeWarning::DuplicateSolution => "duplicate_solution"@,
        GradeWarning::SolutionListRequired => "solution_list_required"@,
        GradeWarning::FractionFormRequired => "fraction_form_required"@,
        GradeWarning::MixedFractionFormRequired => "mixed_fraction_form_required"@,
        GradeWarning::IntegerFormRequired => "integer_form_required"@,
    }
}

/// The outcome of grading one answer: status, the normalized expected and
/// actual trees, and representation warnings.
#[derive(Clone, Debug, PartialEq, Eq)]
pub struct GradeResult {
    status: GradeStatus,
    expected: AnswerNode,
    actual: AnswerNode,
    warnings: Vec<GradeWarning>,
}

impl View for GradeResult {
    type V = (GradeStatus, AnswerValue, AnswerValue, Seq<GradeWarning>);

    closed spec fn view(&self) -> Self::V {
        (self.status, self.expected@, self.actual@, self.warnings@)
    }
}

impl GradeResult {
    pub(crate) fn new(
        status: GradeStatus,
        expected: AnswerNode,
        actual: AnswerNode,
        warnings: Vec<GradeWarning>,
    ) -> (r: Self)
        ensures
            r@ == (status, expected@, actual@, warnings@),
    {
        Self { status, expected, actual, warnings }
    }

    pub fn status(&self) -> (r: GradeStatus)
        ensures
            r == self@.0,
    {
        self.status
    }

    pub fn is_correct(&self) -> (r: bool)
        ensures
            r == (self@.0 == GradeStatus::Correct),
    {
        self.status == GradeStatus::Correct
    }

    pub fn expected(&self) -> (r: &AnswerNode)
        ensures
            r@ == self@.1,
    {
        &self.expected
    }

    pub fn actual(&self) -> (r: &AnswerNode)
        ensures
            r@ == self@.2,
    {
        &self.actual
    }

    pub fn warnings(&self) -> (r: &[GradeWarning])
        ensures
            r@ == self@.3,
    {
        self.warnings.as_slice()
    }
}

/// The largest integer that a JavaScript number holds exactly.
pub const JS_SAFE_INTEGER_MAX: i64 = 9_007_199_254_740_991;

pub open spec fn js_safe(value: i64) -> bool {
    -JS_SAFE_INTEGER_MAX <= value <= JS_SAFE_INTEGER_MAX
}

pub fn is_js_safe_integer(value: i64) -> (r: bool)
    ensures
        r == js_safe(value),
{
    value >= -JS_SAFE_INTEGER_MAX && value <= JS_SAFE_INTEGER_MAX
}

impl RationalCoefficient {
    pub(crate) fn has_js_safe_wire_values(self) -> (r: bool)
        ensures
            r == (js_safe(self@.0) && js_safe(self@.1)),
    {
        is_js_safe_integer(self.numerator) && is_js_safe_integer(self.denominator)
    }
}

#[derive(Clone, Copy, Debug, PartialEq, Eq, Hash, PartialOrd, Ord, Structural)]
pub enum ArithmeticOperator {
    Add,
    Subtract,
    Multiply,
    Divide,
}

#[derive(Debug, PartialEq, Eq, Hash, PartialOrd, Ord)]
pub enum ArithmeticExpression {
    Integer { value: i64 },
    Rational { value: RationalCoefficient },
    ExactDecimal { coefficient: i64, scale: u32 },
    Binary { operator: ArithmeticOperator, left: Box<ArithmeticExpression>, right: Box<ArithmeticExpression> },
}

impl Clone for ArithmeticExpression {
    /// A structural copy of the expression.
    fn clone(&self) -> (r: Self)
        ensures
            r == *self,
        decreases self,
    {
        match self {
            Self::Integer { value } => Self::Integer { value: *value },
            Self::Rational { value } => Self::Rational { value: *value },
            Self::ExactDecimal { coefficient, scale } => Self::ExactDecimal { coefficient: *coefficient, scale: *scale },
            Self::Binary { operator, left, right } => Self::Binary {
                operator: *operator,
                left: Box::new((**left).clone()),
                right: Box::new((**right).clone()),
            },
        }
    }
}

/// Every integer of the expression crosses the JavaScript wire exactly.
pub open spec fn expression_js_safe(e: ArithmeticExpression) -> bool
    decreases e,
{
    match e {
        ArithmeticExpression::Integer { value } => js_safe(value),
        ArithmeticExpression::Rational { value } => js_safe(value@.0) && js_safe(value@.1),
        ArithmeticExpression::ExactDecimal { coefficient, .. } => js_safe(coefficient),
        ArithmeticExpression::Binary { left, right, .. } => expression_js_safe(*left) && expression_js_safe(*right),
    }
}

impl ArithmeticExpression {
    pub(crate) fn has_js_safe_wire_values(&self) -> (r: bool)
        ensures
            r == expression_js_safe(*self),
        decreases self,
    {
        match self {
            Self::Integer { value } => is_js_safe_integer(*value),
            Self::Rational { value } => value.has_js_safe_wire_values(),
            Self::ExactDecimal { coefficient, .. } => is_js_safe_integer(*coefficient),
            Self::Binary { left, right, .. } => left.has_js_safe_wire_values() && right.has_js_safe_wire_values(),
        }
    }
}

#[derive(Clone, Copy, Debug, PartialEq, Eq, Hash, PartialOrd, Ord, Structural)]
pub enum QuadraticEquationForm {
    SquareEqualsConstant,
    SquarePlusConstantZero,
    FactoredScale,
    Standard,
}

pub const MAX_LIAR_PUZZLE_PEOPLE: u8 = 4;
pub const MINI_SUDOKU_SIDE: usize = 4;
pub const MINI_SUDOKU_CELL_COUNT: usize = 16;

/// The mini sudoku answer grid: sixteen cells of the digits one to four.
pub fn mini_sudoku_grid_spec() -> (r: DigitGridSpec)
    ensures
        r@ == (1u8, 4u8, 16u8),
{
    DigitGridSpec::new(1, 4, 16)
}

/// A person of a liar puzzle, numbered from one.
#[derive(Clone, Copy, Debug, PartialEq, Eq, Hash, PartialOrd, Ord, Structural)]
pub struct PersonIndex(u8);

impl View for PersonIndex {
    type V = u8;

    closed spec fn view(&self) -> u8 {
        self.0
    }
}

impl PersonIndex {
    #[verifier::type_invariant]
    spec fn in_range(self) -> bool {
        1 <= self.0 <= MAX_LIAR_PUZZLE_PEOPLE
    }

    pub fn new(value: u8) -> (r: Option<Self>)
        ensures
            match r {
                Some(p) => 1 <= value <= MAX_LIAR_PUZZLE_PEOPLE && p@ == value,
                None => !(1 <= value <= MAX_LIAR_PUZZLE_PEOPLE),
            },
    {
        if value >= 1 && value <= MAX_LIAR_PUZZLE_PEOPLE {
            Some(Self(value))
        } else {
            None
        }
    }

    pub fn value(self) -> (r: u8)
        ensures
            r == self@,
            1 <= r <= MAX_LIAR_PUZZLE_PEOPLE,
    {
        proof {
            use_type_invariant(&self);
        }
        self.0
    }
}

/// The number of people of a liar puzzle.
#[derive(Clone, Copy, Debug, PartialEq, Eq, Hash, PartialOrd, Ord, Structural)]
pub struct PeopleCount(u8);

impl View for PeopleCount {
    type V = u8;

    closed spec fn view(&self) -> u8 {
        self.0
    }
}

impl PeopleCount {
    #[verifier::type_invariant]
    spec fn in_range(self) -> bool {
        3 <= self.0 <= MAX_LIAR_PUZZLE_PEOPLE
    }

    pub fn new(value: u8) -> (r: Option<Self>)
        ensures
            match r {
                Some(p) => 3 <= value <= MAX_LIAR_PUZZLE_PEOPLE && p@ == value,
                None => !(3 <= value <= MAX_LIAR_PUZZLE_PEOPLE),
            },
    {
        if value >= 3 && value <= MAX_LIAR_PUZZLE_PEOPLE {
            Some(Self(value))
        } else {
            None
        }
    }

    pub fn value(self) -> (r: u8)
        ensures
            r == self@,
            3 <= r <= MAX_LIAR_PUZZLE_PEOPLE,
    {
        proof {
            use_type_invariant(&self);
        }
        self.0
    }
}

/// A count of liars that a statement can name: at least one, fewer than the
/// largest puzzle.
#[derive(Clone, Copy, Debug, PartialEq, Eq, Hash, PartialOrd, Ord, Structural)]
pub struct LiarCount(u8);

impl View for LiarCount {
    type V = u8;

    closed spec fn view(&self) -> u8 {
        self.0
    }
}

impl LiarCount {
    pub fn new(value: u8) -> (r: Option<Self>)
        ensures
            match r {
                Some(c) => 1 <= value < MAX_LIAR_PUZZLE_PEOPLE && c@ == value,
                None => !(1 <= value < MAX_LIAR_PUZZLE_PEOPLE),
            },
    {
        if value >= 1 && value < MAX_LIAR_PUZZLE_PEOPLE {
            Some(Self(value))
        } else {
            None
        }
    }

    pub fn value(self) -> (r: u8)
        ensures
            r == self@,
    {
        self.0
    }
}

/// Sixteen cells, each empty or a digit from one to four.
#[derive(Clone, Debug, PartialEq, Eq, Hash, PartialOrd, Ord)]
pub struct MiniSudokuGrid([Option<u8>; MINI_SUDOKU_CELL_COUNT]);

pub open spec fn sudoku_cells_valid(cells: Seq<Option<u8>>) -> bool {
    forall|i: int| 0 <= i < cells.len() ==> (#[trigger] cells[i] matches Some(d) ==> 1 <= d <= 4)
}

impl View for MiniSudokuGrid {
    type V = Seq<Option<u8>>;

    closed spec fn view(&self) -> Seq<Option<u8>> {
        self.0@
    }
}

impl MiniSudokuGrid {
    pub fn new(cells: [Option<u8>; MINI_SUDOKU_CELL_COUNT]) -> (r: Option<Self>)
        ensures
            match r {
                Some(g) => sudoku_cells_valid(cells@) && g@ == cells@,
                None => !sudoku_cells_valid(cells@),
            },
    {
        let mut i: usize = 0;
        while i < MINI_SUDOKU_CELL_COUNT
            invariant
                i <= MINI_SUDOKU_CELL_COUNT,
                cells@.len() == MINI_SUDOKU_CELL_COUNT,
                forall|j: int| 0 <= j < i ==> (#[trigger] cells@[j] matches Some(d) ==> 1 <= d <= 4),
            decreases MINI_SUDOKU_CELL_COUNT - i,
        {
            match cells[i] {
                Some(d) => if d < 1 || d > 4 {
                    proof {
                        assert(!(cells@[i as int] matches Some(x) ==> 1 <= x <= 4));
                    }
                    return None;
                },
                None => {},
            }
            i += 1;
        }
        Some(Self(cells))
    }

    /// A grid has one entry per cell, each empty or a digit from one to four.
    pub proof fn lemma_cells(self)
        ensures
            self@.len() == MINI_SUDOKU_CELL_COUNT,
    {
    }

    /// The given digit of cell `index`, if any.
    pub fn cell(&self, index: usize) -> (r: Option<u8>)
        requires
            index < MINI_SUDOKU_CELL_COUNT,
        ensures
            r == self@[index as int],
    {
        self.0[index]
    }
}

#[derive(Clone, Copy, Debug, PartialEq, Eq, Hash, PartialOrd, Ord, Structural)]
pub enum LiarStatement {
    SaysLiar { person: PersonIndex },
    SaysNotLiar { person: PersonIndex },
    ExactlyOneLiar { first: PersonIndex, second: PersonIndex },
    ExactLiarCount { count: LiarCount },
    BothLiar { first: PersonIndex, second: PersonIndex },
    BothNotLiar { first: PersonIndex, second: PersonIndex },
}

/// Whether person `p` (numbered from one) lies under the liar mask: bit
/// `p - 1` set.
pub open spec fn mask_says_liar(mask: u32, p: u8) -> bool {
    ((mask >> ((p - 1) as u32)) & 1u32) == 1u32
}

/// The number of set bits among the lowest `k` bits of `mask`.
pub open spec fn ones_below(mask: u32, k: nat) -> nat
    decreases k,
{
    if k == 0 {
        0
    } else {
        ones_below(mask, (k - 1) as nat) + if ((mask >> ((k - 1) as u32)) & 1u32) == 1u32 {
            1nat
        } else {
            0nat
        }
    }
}

/// The truth of a statement when the set bits of `mask` mark the liars.
pub open spec fn statement_true(s: LiarStatement, mask: u32) -> bool {
    match s {
        LiarStatement::SaysLiar { person } => mask_says_liar(mask, person@),
        LiarStatement::SaysNotLiar { person } => !mask_says_liar(mask, person@),
        LiarStatement::ExactlyOneLiar { first, second } => mask_says_liar(mask, first@) != mask_says_liar(
            mask,
            second@,
        ),
        LiarStatement::ExactLiarCount { count } => ones_below(mask, 32) == count@ as nat,
        LiarStatement::BothLiar { first, second } => mask_says_liar(mask, first@) && mask_says_liar(mask, second@),
        LiarStatement::BothNotLiar { first, second } => !mask_says_liar(mask, first@) && !mask_says_liar(
            mask,
            second@,
        ),
    }
}

/// A statement fits a puzzle of `people` people: it names only people of
/// the puzzle, two different ones where it names two, and a liar count
/// below the number of people.
pub open spec fn statement_valid_for(s: LiarStatement, people: u8) -> bool {
    match s {
        LiarStatement::SaysLiar { person } | LiarStatement::SaysNotLiar { person } => person@ <= people,
        LiarStatement::ExactlyOneLiar { first, second } | LiarStatement::BothLiar { first, second }
        | LiarStatement::BothNotLiar { first, second } => first != second && first@ <= people && second@ <= people,
        LiarStatement::ExactLiarCount { count } => count@ < people,
    }
}

/// How many of two people lie under a liar mask.
pub open spec fn liars_among(mask: u32, a: PersonIndex, b: PersonIndex) -> nat {
    (if mask_says_liar(mask, a@) {
        1nat
    } else {
        0nat
    }) + (if mask_says_liar(mask, b@) {
        1nat
    } else {
        0nat
    })
}

/// What a statement claims, counted in liars: "exactly one of them lies"
/// holds when one of the two lies and the other does not (never when both
/// lie), "both lie" when both do, "neither lies" when none does; "p lies"
/// and "p does not lie" hold exactly when p does and does not lie.
pub proof fn lemma_statements_count_liars(mask: u32, first: PersonIndex, second: PersonIndex)
    ensures
        statement_true(LiarStatement::ExactlyOneLiar { first, second }, mask) <==> liars_among(mask, first, second)
            == 1,
        statement_true(LiarStatement::BothLiar { first, second }, mask) <==> liars_among(mask, first, second) == 2,
        statement_true(LiarStatement::BothNotLiar { first, second }, mask) <==> liars_among(mask, first, second)
            == 0,
        statement_true(LiarStatement::SaysLiar { person: first }, mask) <==> mask_says_liar(mask, first@),
        statement_true(LiarStatement::SaysNotLiar { person: first }, mask) <==> !mask_says_liar(mask, first@),
        statement_true(LiarStatement::ExactlyOneLiar { first, second }, mask) ==> !(mask_says_liar(mask, first@)
            && mask_says_liar(mask, second@)),
{
}

/// Person one lies exactly when the mask is odd, and person `p + 1` lies
/// under a mask exactly when person `p` lies under the mask halved: the
/// liar mask lists the people from its lowest bit up.
pub proof fn lemma_liar_mask_bits(mask: u32, p: u8)
    requires
        1 <= p < 32,
    ensures
        mask_says_liar(mask, 1) <==> mask % 2 == 1,
        mask_says_liar(mask, (p + 1) as u8) <==> mask_says_liar(mask / 2, p),
{
    assert(((mask >> 0u32) & 1u32) == 1u32 <==> mask % 2 == 1) by (bit_vector);
    let k = (p - 1) as u32;
    assert(k < 31);
    assert(((mask >> (k + 1)) & 1u32) == (((mask / 2) >> k) & 1u32)) by (bit_vector)
        requires
            k < 31,
    ;
    assert(((p + 1) as u8 - 1) as u32 == k + 1);
}

proof fn lemma_ones_below_halved(mask: u32, k: nat)
    requires
        k < 32,
    ensures
        ones_below(mask, k + 1) == mask % 2 + ones_below(mask / 2, k),
    decreases k,
{
    if k == 0 {
        assert(((mask >> 0u32) & 1u32) == 1u32 <==> mask % 2 == 1) by (bit_vector);
        assert(ones_below(mask, 0) == 0);
    } else {
        lemma_ones_below_halved(mask, (k - 1) as nat);
        let j = (k - 1) as u32;
        assert(((mask >> (j + 1)) & 1u32) == (((mask / 2) >> j) & 1u32)) by (bit_vector)
            requires
                j < 31,
        ;
        assert((k as u32) == j + 1);
    }
}

proof fn lemma_ones_below_zero(k: nat)
    requires
        k <= 32,
    ensures
        ones_below(0, k) == 0,
    decreases k,
{
    if k > 0 {
        lemma_ones_below_zero((k - 1) as nat);
        let j = (k - 1) as u32;
        assert(((0u32 >> j) & 1u32) == 0u32) by (bit_vector);
    }
}

/// The number of liars in a mask is its number of set bits: none in the
/// empty mask, and otherwise the lowest bit plus the liars of the mask
/// halved. "Exactly n of us lie" holds exactly when that number is n.
pub proof fn lemma_liar_count(mask: u32, count: LiarCount)
    ensures
        ones_below(0, 32) == 0,
        ones_below(mask, 32) == mask % 2 + ones_below(mask / 2, 32),
        statement_true(LiarStatement::ExactLiarCount { count }, mask) <==> ones_below(mask, 32) == count@ as nat,
{
    lemma_ones_below_zero(32);
    lemma_ones_below_halved(mask, 31);
    let h = mask / 2;
    assert(((h >> 31u32) & 1u32) == 0u32) by (bit_vector)
        requires
            h == mask / 2,
    ;
    assert(ones_below(h, 32) == ones_below(h, 31));
}

fn says_liar(mask: u32, person: PersonIndex) -> (r: bool)
    ensures
        r == mask_says_liar(mask, person@),
{
    let p = person.value();
    ((mask >> ((p - 1) as u32)) & 1) == 1
}

fn count_ones_of(mask: u32) -> (r: u32)
    ensures
        r == ones_below(mask, 32),
{
    let mut count: u32 = 0;
    let mut k: u32 = 0;
    while k < 32
        invariant
            k <= 32,
            count == ones_below(mask, k as nat),
            count <= k,
        decreases 32 - k,
    {
        if ((mask >> k) & 1) == 1 {
            count += 1;
        }
        k += 1;
    }
    count
}

impl LiarStatement {
    pub(crate) fn is_true_for_mask(&self, mask: u32) -> (r: bool)
        ensures
            r == statement_true(*self, mask),
    {
        match *self {
            Self::SaysLiar { person } => says_liar(mask, person),
            Self::SaysNotLiar { person } => !says_liar(mask, person),
            Self::ExactlyOneLiar { first, second } => says_liar(mask, first) != says_liar(mask, second),
            Self::ExactLiarCount { count } => count_ones_of(mask) == count.value() as u32,
            Self::BothLiar { first, second } => says_liar(mask, first) && says_liar(mask, second),
            Self::BothNotLiar { first, second } => !says_liar(mask, first) && !says_liar(mask, second),
        }
    }

    pub fn is_valid_for(&self, people_count: PeopleCount) -> (r: bool)
        ensures
            r == statement_valid_for(*self, people_count@),
    {
        let people = people_count.value();
        match *self {
            Self::SaysLiar { person } | Self::SaysNotLiar { person } => person.value() <= people,
            Self::ExactlyOneLiar { first, second } | Self::BothLiar { first, second } | Self::BothNotLiar {
                first,
                second,
            } => first != second && first.value() <= people && second.value() <= people,
            Self::ExactLiarCount { count } => count.value() < people,
        }
    }
}


#[derive(Clone, Debug, PartialEq, Eq, Hash, PartialOrd, Ord)]
pub enum ProblemPrompt {
    Addition { left: u8, right: u8 },
    Arithmetic { expression: ArithmeticExpression },
    ColumnArithmetic { operator: ArithmeticOperator, left: ArithmeticExpression, right: ArithmeticExpression },
    LinearEquation {
        a: RationalCoefficient,
        b: RationalCoefficient,
        c: RationalCoefficient,
        d: RationalCoefficient,
        left_negative_constant_as_subtraction: bool,
        right_negative_constant_as_subtraction: bool,
    },
    QuadraticEquation {
        form: QuadraticEquationForm,
        a: RationalCoefficient,
        b: RationalCoefficient,
        c: RationalCoefficient,
    },
    SimultaneousEquation { a: i64, b: i64, c: i64, d: i64, e: i64, f: i64 },
    LiarPuzzle { people_count: PeopleCount, statements: Vec<LiarStatement> },
    MiniSudoku { givens: MiniSudokuGrid },
}

pub open spec fn coefficient_js_safe(c: RationalCoefficient) -> bool {
    js_safe(c@.0) && js_safe(c@.1)
}

/// Every integer of the prompt crosses the JavaScript wire exactly.
pub open spec fn prompt_js_safe(p: ProblemPrompt) -> bool {
    match p {
        ProblemPrompt::Addition { .. } | ProblemPrompt::LiarPuzzle { .. } | ProblemPrompt::MiniSudoku { .. } => true,
        ProblemPrompt::Arithmetic { expression } => expression_js_safe(expression),
        ProblemPrompt::ColumnArithmetic { left, right, .. } => expression_js_safe(left) && expression_js_safe(right),
        ProblemPrompt::LinearEquation { a, b, c, d, .. } => coefficient_js_safe(a) && coefficient_js_safe(b)
            && coefficient_js_safe(c) && coefficient_js_safe(d),
        ProblemPrompt::QuadraticEquation { a, b, c, .. } => coefficient_js_safe(a) && coefficient_js_safe(b)
            && coefficient_js_safe(c),
        ProblemPrompt::SimultaneousEquation { a, b, c, d, e, f } => js_safe(a) && js_safe(b) && js_safe(c)
            && js_safe(d) && js_safe(e) && js_safe(f),
    }
}

/// Addition uses two digits from one to nine; a liar puzzle has one valid
/// statement per person.
pub open spec fn prompt_structurally_valid(p: ProblemPrompt) -> bool {
    match p {
        ProblemPrompt::Addition { left, right } => 1 <= left <= 9 && 1 <= right <= 9,
        ProblemPrompt::LiarPuzzle { people_count, statements } => statements@.len() == people_count@ as nat
            && forall|i: int| 0 <= i < statements@.len() ==> #[trigger] statement_valid_for(
            statements@[i],
            people_count@,
        ),
        _ => true,
    }
}

pub open spec fn prompt_theme_kind(p: ProblemPrompt) -> ThemePromptKind {
    match p {
        ProblemPrompt::Addition { .. } => ThemePromptKind::Addition,
        ProblemPrompt::Arithmetic { .. } => ThemePromptKind::Arithmetic,
        ProblemPrompt::ColumnArithmetic { .. } => ThemePromptKind::ColumnArithmetic,
        ProblemPrompt::LinearEquation { .. } => ThemePromptKind::LinearEquation,
        ProblemPrompt::QuadraticEquation { .. } => ThemePromptKind::QuadraticEquation,
        ProblemPrompt::SimultaneousEquation { .. } => ThemePromptKind::SimultaneousEquation,
        ProblemPrompt::LiarPuzzle { .. } => ThemePromptKind::LiarPuzzle,
        ProblemPrompt::MiniSudoku { .. } => ThemePromptKind::MiniSudoku,
    }
}

impl ProblemPrompt {
    pub(crate) fn has_js_safe_wire_values(&self) -> (r: bool)
        ensures
            r == prompt_js_safe(*self),
    {
        match self {
            Self::Addition { .. } | Self::LiarPuzzle { .. } | Self::MiniSudoku { .. } => true,
            Self::Arithmetic { expression } => expression.has_js_safe_wire_values(),
            Self::ColumnArithmetic { left, right, .. } => left.has_js_safe_wire_values()
                && right.has_js_safe_wire_values(),
            Self::LinearEquation { a, b, c, d, .. } => a.has_js_safe_wire_values() && b.has_js_safe_wire_values()
                && c.has_js_safe_wire_values() && d.has_js_safe_wire_values(),
            Self::QuadraticEquation { a, b, c, .. } => a.has_js_safe_wire_values() && b.has_js_safe_wire_values()
                && c.has_js_safe_wire_values(),
            Self::SimultaneousEquation { a, b, c, d, e, f } => is_js_safe_integer(*a) && is_js_safe_integer(*b)
                && is_js_safe_integer(*c) && is_js_safe_integer(*d) && is_js_safe_integer(*e)
                && is_js_safe_integer(*f),
        }
    }

    pub(crate) fn is_structurally_valid(&self) -> (r: bool)
        ensures
            r == prompt_structurally_valid(*self),
    {
        match self {
            Self::Addition { left, right } => 1 <= *left && *left <= 9 && 1 <= *right && *right <= 9,
            Self::LiarPuzzle { people_count, statements } => {
                if statements.len() != people_count.value() as usize {
                    return false;
                }
                let mut i: usize = 0;
                while i < statements.len()
                    invariant
                        *self == (ProblemPrompt::LiarPuzzle { people_count: *people_count, statements: *statements }),
                        statements@.len() == people_count@ as nat,
                        i <= statements@.len(),
                        forall|j: int| 0 <= j < i ==> #[trigger] statement_valid_for(statements@[j], people_count@),
                    decreases statements@.len() - i,
                {
                    if !statements[i].is_valid_for(*people_count) {
                        return false;
                    }
                    i += 1;
                }
                true
            },
            _ => true,
        }
    }

    pub(crate) fn theme_kind(&self) -> (r: ThemePromptKind)
        ensures
            r == prompt_theme_kind(*self),
    {
        match self {
            Self::Addition { .. } => ThemePromptKind::Addition,
            Self::Arithmetic { .. } => ThemePromptKind::Arithmetic,
            Self::ColumnArithmetic { .. } => ThemePromptKind::ColumnArithmetic,
            Self::LinearEquation { .. } => ThemePromptKind::LinearEquation,
            Self::QuadraticEquation { .. } => ThemePromptKind::QuadraticEquation,
            Self::SimultaneousEquation { .. } => ThemePromptKind::SimultaneousEquation,
            Self::LiarPuzzle { .. } => ThemePromptKind::LiarPuzzle,
            Self::MiniSudoku { .. } => ThemePromptKind::MiniSudoku,
        }
    }
}

/// Where the decimal point of a column answer goes.
#[derive(Clone, Copy, Debug, PartialEq, Eq, Structural)]
pub enum ColumnDecimalPointInput {
    NoDecimalPoint,
    Fixed { scale: u32 },
    Editable,
}

#[derive(Clone, Debug, PartialEq, Eq)]
pub struct LayoutMetadata {
    pub problem_count: u32,
    pub columns: u32,
    pub rows: u32,
}

#[derive(Clone, Debug, PartialEq, Eq)]
pub struct GenerateWorksheetRequest {
    pub schema_version: u16,
    pub numeric_theme_id: u32,
    pub seed: String,
    pub difficulty: Difficulty,
    pub timeout_ms: Option<u64>,
    pub max_attempts: Option<u64>,
}

impl GenerateWorksheetRequest {
    /// A current-schema request with the default time and attempt limits.
    pub fn new(numeric_theme_id: u32, seed: String, difficulty: Difficulty) -> (r: Self)
        ensures
            r.schema_version == SCHEMA_VERSION,
            r.numeric_theme_id == numeric_theme_id,
            r.seed@ == seed@,
            r.difficulty == difficulty,
            r.timeout_ms is None,
            r.max_attempts is None,
    {
        Self { schema_version: SCHEMA_VERSION, numeric_theme_id, seed, difficulty, timeout_ms: None, max_attempts: None }
    }
}

} // verus!
