//! Exact integer and rational arithmetic shared by normalization, grading and
//! prompt semantics. Every operation is checked: an intermediate that leaves
//! the machine range yields `None` instead of wrapping.

use vstd::prelude::*;
use vstd::arithmetic::div_mod::*;
use vstd::arithmetic::mul::*;
use vstd::arithmetic::power::pow;

verus! {

/// Euclid's recursion for the greatest common divisor.
pub open spec fn gcd_spec(a: nat, b: nat) -> nat
    decreases b,
{
    if b == 0 {
        a
    } else {
        gcd_spec(b, a % b)
    }
}

pub open spec fn abs_int(x: int) -> nat {
    if x < 0 {
        (-x) as nat
    } else {
        x as nat
    }
}

/// The greatest common divisor is positive and divides both arguments.
pub proof fn lemma_gcd_divides(a: nat, b: nat)
    requires
        a > 0 || b > 0,
    ensures
        gcd_spec(a, b) > 0,
        a % gcd_spec(a, b) == 0,
        b % gcd_spec(a, b) == 0,
    decreases b,
{
    if b == 0 {
        lemma_mod_self_0(a as int);
        lemma_small_mod(0, a);
    } else {
        let r = a % b;
        lemma_mod_pos_bound(a as int, b as int);
        lemma_gcd_divides(b, r);
        let g = gcd_spec(b, r);
        lemma_fundamental_div_mod(a as int, b as int);
        lemma_fundamental_div_mod(b as int, g as int);
        lemma_fundamental_div_mod(r as int, g as int);
        let qb = b / g;
        let qr = r / g;
        assert(a == b * (a / b) + r);
        assert(a == (g * qb) * (a / b) + g * qr);
        assert((g * qb) * (a / b) == g * (qb * (a / b))) by {
            lemma_mul_is_associative(g as int, qb as int, (a / b) as int);
        }
        assert(a == g * (qb * (a / b) + qr)) by {
            lemma_mul_is_distributive_add(g as int, (qb * (a / b)) as int, qr as int);
        }
        lemma_mod_multiples_basic((qb * (a / b) + qr) as int, g as int);
        lemma_mul_is_commutative(g as int, (qb * (a / b) + qr) as int);
    }
}

pub fn gcd_u64(left: u64, right: u64) -> (res: u64)
    ensures
        res == gcd_spec(left as nat, right as nat),
{
    let mut a = left;
    let mut b = right;
    while b != 0
        invariant
            gcd_spec(a as nat, b as nat) == gcd_spec(left as nat, right as nat),
        decreases b,
    {
        let r = a % b;
        a = b;
        b = r;
    }
    a
}

pub fn gcd_u128(left: u128, right: u128) -> (res: u128)
    ensures
        res == gcd_spec(left as nat, right as nat),
{
    let mut a = left;
    let mut b = right;
    while b != 0
        invariant
            gcd_spec(a as nat, b as nat) == gcd_spec(left as nat, right as nat),
        decreases b,
    {
        let r = a % b;
        a = b;
        b = r;
    }
    a
}

pub open spec fn pow10(exponent: nat) -> int {
    pow(10, exponent)
}

pub proof fn lemma_pow10_positive(exponent: nat)
    ensures
        pow10(exponent) >= 1,
    decreases exponent,
{
    vstd::arithmetic::power::lemma_pow_positive(10, exponent);
}

pub proof fn lemma_pow10_step(exponent: nat)
    ensures
        pow10(exponent + 1) == 10 * pow10(exponent),
{
    vstd::arithmetic::power::lemma_pow_adds(10, exponent, 1);
    vstd::arithmetic::power::lemma_pow1(10);
    lemma_pow10_positive(exponent);
    lemma_mul_is_commutative(pow10(exponent), 10);
}

/// `10^exponent` when it fits in `i128`.
pub fn checked_pow10_i128(exponent: u32) -> (res: Option<i128>)
    ensures
        res matches Some(v) ==> v == pow10(exponent as nat),
        res is None <==> pow10(exponent as nat) > i128::MAX,
{
    let mut value: i128 = 1;
    let mut k: u32 = 0;
    proof {
        vstd::arithmetic::power::lemma_pow0(10);
    }
    while k < exponent
        invariant
            k <= exponent,
            value == pow10(k as nat),
            value >= 1,
        decreases exponent - k,
    {
        proof {
            lemma_pow10_step(k as nat);
        }
        if value > i128::MAX / 10 {
            proof {
                lemma_pow10_monotone(k as nat + 1, exponent as nat);
            }
            return None;
        }
        value = value * 10;
        k = k + 1;
    }
    Some(value)
}

/// `10^exponent` when it fits in `i64`.
pub fn checked_pow10_i64(exponent: u32) -> (res: Option<i64>)
    ensures
        res matches Some(v) ==> v == pow10(exponent as nat),
        res is None <==> pow10(exponent as nat) > i64::MAX,
{
    let mut value: i64 = 1;
    let mut k: u32 = 0;
    proof {
        vstd::arithmetic::power::lemma_pow0(10);
    }
    while k < exponent
        invariant
            k <= exponent,
            value == pow10(k as nat),
            value >= 1,
        decreases exponent - k,
    {
        proof {
            lemma_pow10_step(k as nat);
        }
        if value > i64::MAX / 10 {
            proof {
                lemma_pow10_monotone(k as nat + 1, exponent as nat);
            }
            return None;
        }
        value = value * 10;
        k = k + 1;
    }
    Some(value)
}

/// `10^exponent` when it fits in `u64`.
pub fn checked_pow10_u64(exponent: u32) -> (res: Option<u64>)
    ensures
        res matches Some(v) ==> v == pow10(exponent as nat),
        res is None <==> pow10(exponent as nat) > u64::MAX,
{
    let mut value: u64 = 1;
    let mut k: u32 = 0;
    proof {
        vstd::arithmetic::power::lemma_pow0(10);
    }
    while k < exponent
        invariant
            k <= exponent,
            value == pow10(k as nat),
            value >= 1,
        decreases exponent - k,
    {
        proof {
            lemma_pow10_step(k as nat);
        }
        if value > u64::MAX / 10 {
            proof {
                lemma_pow10_monotone(k as nat + 1, exponent as nat);
            }
            return None;
        }
        value = value * 10;
        k = k + 1;
    }
    Some(value)
}

pub proof fn lemma_pow10_20()
    ensures
        pow10(20) == 100000000000000000000,
        pow10(19) == 10000000000000000000,
        pow10(18) == 1000000000000000000,
{
    reveal_with_fuel(pow, 21);
}

pub proof fn lemma_pow10_monotone(a: nat, b: nat)
    requires
        a <= b,
    ensures
        pow10(a) <= pow10(b),
    decreases b - a,
{
    if a < b {
        lemma_pow10_monotone(a, (b - 1) as nat);
        lemma_pow10_step((b - 1) as nat);
        lemma_pow10_positive((b - 1) as nat);
    }
}

/// Exact rational `numerator / denominator`. Values produced by `new` and the
/// arithmetic operations are canonical: the denominator is positive, the
/// fraction is reduced by the gcd, and zero is `0/1`.
#[derive(Clone, Copy, Debug, PartialEq, Eq, Structural)]
pub struct ExactRational {
    pub numerator: i128,
    pub denominator: i128,
}

pub open spec fn in_i128(x: int) -> bool {
    i128::MIN <= x <= i128::MAX
}

pub open spec fn rat(n: int, d: int) -> ExactRational {
    ExactRational { numerator: n as i128, denominator: d as i128 }
}

/// The canonical reduced form of `n/d` for a positive denominator.
pub open spec fn reduced(n: int, d: int) -> ExactRational {
    if n == 0 {
        rat(0, 1)
    } else {
        let g = gcd_spec(abs_int(n), d as nat);
        rat(n / (g as int), d / (g as int))
    }
}

impl ExactRational {
    /// Canonicalization of a raw numerator/denominator pair.
    pub open spec fn spec_new(n: int, d: int) -> Option<ExactRational> {
        if d == 0 {
            None
        } else if d < 0 {
            if n == i128::MIN || d == i128::MIN {
                None
            } else {
                Some(reduced(-n, -d))
            }
        } else {
            Some(reduced(n, d))
        }
    }

    pub open spec fn spec_add(self, other: Self) -> Option<ExactRational> {
        let left = self.numerator * other.denominator;
        let right = other.numerator * self.denominator;
        let den = self.denominator * other.denominator;
        if !in_i128(left) || !in_i128(right) || !in_i128(left + right) || !in_i128(den) {
            None
        } else {
            Self::spec_new(left + right, den)
        }
    }

    pub open spec fn spec_negate(self) -> Option<ExactRational> {
        if self.numerator == i128::MIN {
            None
        } else {
            Self::spec_new(-self.numerator, self.denominator as int)
        }
    }

    pub open spec fn spec_subtract(self, other: Self) -> Option<ExactRational> {
        match other.spec_negate() {
            Some(n) => self.spec_add(n),
            None => None,
        }
    }

    pub open spec fn spec_multiply(self, other: Self) -> Option<ExactRational> {
        let num = self.numerator * other.numerator;
        let den = self.denominator * other.denominator;
        if !in_i128(num) || !in_i128(den) {
            None
        } else {
            Self::spec_new(num, den)
        }
    }

    pub open spec fn spec_divide(self, other: Self) -> Option<ExactRational> {
        let num = self.numerator * other.denominator;
        let den = self.denominator * other.numerator;
        if other.numerator == 0 || !in_i128(num) || !in_i128(den) {
            None
        } else {
            Self::spec_new(num, den)
        }
    }

    pub open spec fn spec_from_integer(value: int) -> ExactRational {
        rat(value, 1)
    }

    /// Numerator and denominator have no common factor.
    pub open spec fn is_reduced(self) -> bool {
        gcd_spec(abs_int(self.numerator as int), self.denominator as nat) == 1
    }

    pub open spec fn is_canonical(self) -> bool {
        &&& self.denominator > 0
        &&& self.numerator == 0 ==> self.denominator == 1
    }
}

proof fn lemma_reduced_in_range(n: int, d: int)
    requires
        d > 0,
        in_i128(n),
        in_i128(d),
    ensures
        reduced(n, d).numerator == (if n == 0 { 0 } else { n / (gcd_spec(abs_int(n), d as nat) as int) }),
        reduced(n, d).denominator == (if n == 0 { 1 } else { d / (gcd_spec(abs_int(n), d as nat) as int) }),
        reduced(n, d).is_canonical(),
{
    if n != 0 {
        let g = gcd_spec(abs_int(n), d as nat);
        lemma_gcd_divides(abs_int(n), d as nat);
        assert(g > 0);
        lemma_fundamental_div_mod(d, g as int);
        lemma_fundamental_div_mod(abs_int(n) as int, g as int);
        // quotient bounds
        lemma_div_pos_is_pos(d, g as int);
        lemma_div_is_ordered_by_denominator(d, 1, g as int);
        if n > 0 {
            lemma_div_pos_is_pos(n, g as int);
            lemma_div_is_ordered_by_denominator(n, 1, g as int);
            assert(n / (g as int) != 0) by {
                if n / (g as int) == 0 {
                    assert(n == g * (n / (g as int)));
                }
            }
        } else {
            let m = -n;
            lemma_div_pos_is_pos(m, g as int);
            lemma_div_is_ordered_by_denominator(m, 1, g as int);
            let q = m / (g as int);
            assert(m == g * q);
            assert(n == g * (-q)) by {
                lemma_mul_unary_negation(g as int, q);
            }
            lemma_fundamental_div_mod_converse(n, g as int, -q, 0);
            lemma_mul_is_commutative(g as int, -q);
            assert(q != 0);
        }
        assert(d / (g as int) >= 1) by {
            assert(g <= d) by {
                lemma_mod_is_zero(d as nat, g);
            }
            lemma_div_is_ordered(g as int, d, g as int);
            lemma_div_by_self(g as int);
        }
    }
}

proof fn lemma_spec_new_canonical(n: int, d: int)
    requires
        in_i128(n),
        in_i128(d),
    ensures
        ExactRational::spec_new(n, d) matches Some(r) ==> r.is_canonical(),
{
    if d > 0 {
        lemma_reduced_in_range(n, d);
    } else if d < 0 && n != i128::MIN && d != i128::MIN {
        lemma_reduced_in_range(-n, -d);
    }
}

/// Scaling both arguments scales their greatest common divisor.
proof fn lemma_gcd_scale(a: nat, b: nat, k: nat)
    requires
        k > 0,
    ensures
        gcd_spec(k * a, k * b) == k * gcd_spec(a, b),
    decreases b,
{
    if b == 0 {
        assert(k * b == 0) by (nonlinear_arith)
            requires
                b == 0,
        ;
    } else {
        let q = a / b;
        let r = a % b;
        lemma_fundamental_div_mod(a as int, b as int);
        lemma_mod_pos_bound(a as int, b as int);
        assert(k * a == q * (k * b) + k * r && 0 <= k * r < k * b) by (nonlinear_arith)
            requires
                a == b * q + r,
                0 <= r < b,
                k > 0,
        ;
        lemma_fundamental_div_mod_converse((k * a) as int, (k * b) as int, q as int, (k * r) as int);
        assert(k * b > 0) by (nonlinear_arith)
            requires
                k > 0,
                b > 0,
        ;
        lemma_gcd_scale(b, r, k);
    }
}

/// Dividing out the greatest common divisor leaves coprime parts.
proof fn lemma_divided_coprime(a: nat, d: nat)
    requires
        a > 0,
        d > 0,
    ensures
        gcd_spec(a / gcd_spec(a, d), d / gcd_spec(a, d)) == 1,
{
    let g = gcd_spec(a, d);
    lemma_gcd_divides(a, d);
    lemma_fundamental_div_mod(a as int, g as int);
    lemma_fundamental_div_mod(d as int, g as int);
    let a1 = a / g;
    let d1 = d / g;
    assert(a == g * a1);
    assert(d == g * d1);
    lemma_gcd_scale(a1, d1, g);
    let c = gcd_spec(a1, d1);
    assert(c == 1) by (nonlinear_arith)
        requires
            g * c == g,
            g > 0,
    ;
}

/// A canonical form has coprime parts.
proof fn lemma_reduced_coprime(n: int, d: int)
    requires
        d > 0,
        in_i128(n),
        in_i128(d),
    ensures
        gcd_spec(abs_int(reduced(n, d).numerator as int), reduced(n, d).denominator as nat) == 1,
{
    lemma_reduced_in_range(n, d);
    if n == 0 {
        assert(gcd_spec(0, 1) == 1) by {
            reveal_with_fuel(gcd_spec, 2);
        }
    } else {
        let a = abs_int(n);
        let g = gcd_spec(a, d as nat);
        lemma_gcd_divides(a, d as nat);
        lemma_divided_coprime(a, d as nat);
        lemma_fundamental_div_mod(a as int, g as int);
        let q = a as int / g as int;
        if n < 0 {
            assert(n == g * (-q)) by {
                lemma_mul_unary_negation(g as int, q);
            }
            lemma_fundamental_div_mod_converse(n, g as int, -q, 0);
            lemma_div_pos_is_pos(a as int, g as int);
        } else {
            lemma_div_pos_is_pos(a as int, g as int);
        }
        assert(abs_int(n / (g as int)) == q);
    }
}

/// The canonical form of `n/d` has coprime parts.
pub proof fn lemma_spec_new_coprime(n: int, d: int)
    requires
        in_i128(n),
        in_i128(d),
    ensures
        ExactRational::spec_new(n, d) matches Some(r) ==> gcd_spec(abs_int(r.numerator as int), r.denominator as nat) == 1,
{
    if d > 0 {
        lemma_reduced_coprime(n, d);
    } else if d < 0 && n != i128::MIN && d != i128::MIN {
        lemma_reduced_coprime(-n, -d);
    }
}

/// What `spec_new` gives is canonical and reduced; zero over a nonzero
/// denominator is `0/1`.
pub proof fn lemma_spec_new_facts(n: int, d: int)
    requires
        in_i128(n),
        in_i128(d),
    ensures
        ExactRational::spec_new(n, d) matches Some(r) ==> r.is_canonical() && r.is_reduced(),
        n == 0 && d != 0 && d != i128::MIN ==> ExactRational::spec_new(n, d) == Some(rat(0, 1)),
{
    lemma_spec_new_canonical(n, d);
    lemma_spec_new_coprime(n, d);
}

/// The negation of a reduced value is its numerator negated.
pub proof fn lemma_negate_reduced(x: ExactRational)
    requires
        x.is_canonical(),
        x.is_reduced(),
        x.numerator != i128::MIN,
    ensures
        x.spec_negate() == Some(rat(-x.numerator, x.denominator as int)),
{
    let n = -x.numerator;
    let d = x.denominator as int;
    if n != 0 {
        assert(abs_int(n) == abs_int(x.numerator as int));
        assert(n / 1 == n);
        assert(d / 1 == d);
    }
}

/// A nonzero value over itself is one.
pub proof fn lemma_spec_new_self(p: int)
    requires
        p != 0,
        i128::MIN < p <= i128::MAX,
    ensures
        ExactRational::spec_new(p, p) == Some(rat(1, 1)),
{
    let m = abs_int(p);
    assert(gcd_spec(m, m) == m) by {
        reveal_with_fuel(gcd_spec, 2);
        lemma_mod_self_0(m as int);
    }
    lemma_div_by_self(m as int);
    if p < 0 {
        assert(abs_int(-p) == m);
        assert(-p == m);
    } else {
        assert(p == m);
    }
}

/// Every operation on exact rationals gives a canonical, reduced result.
pub proof fn lemma_ops_reduced(x: ExactRational, y: ExactRational)
    ensures
        x.spec_add(y) matches Some(r) ==> r.is_canonical() && r.is_reduced(),
        x.spec_negate() matches Some(r) ==> r.is_canonical() && r.is_reduced(),
        x.spec_subtract(y) matches Some(r) ==> r.is_canonical() && r.is_reduced(),
        x.spec_multiply(y) matches Some(r) ==> r.is_canonical() && r.is_reduced(),
        x.spec_divide(y) matches Some(r) ==> r.is_canonical() && r.is_reduced(),
        x.is_canonical() ==> (x.spec_square_root() matches Some(r) ==> r.is_canonical() && r.is_reduced()),
{
    let left = x.numerator * y.denominator;
    let right = y.numerator * x.denominator;
    let den = x.denominator * y.denominator;
    if in_i128(left) && in_i128(right) && in_i128(left + right) && in_i128(den) {
        lemma_spec_new_facts(left + right, den);
    }
    if x.numerator != i128::MIN {
        lemma_spec_new_facts(-x.numerator, x.denominator as int);
    }
    if y.numerator != i128::MIN {
        lemma_spec_new_facts(-y.numerator, y.denominator as int);
        let n = ExactRational::spec_new(-y.numerator, y.denominator as int);
        if n is Some {
            let m = n->0;
            let l2 = x.numerator * m.denominator;
            let r2 = m.numerator * x.denominator;
            let d2 = x.denominator * m.denominator;
            if in_i128(l2) && in_i128(r2) && in_i128(l2 + r2) && in_i128(d2) {
                lemma_spec_new_facts(l2 + r2, d2);
            }
        }
    }
    let pn = x.numerator * y.numerator;
    if in_i128(pn) && in_i128(den) {
        lemma_spec_new_facts(pn, den);
    }
    let qn = x.numerator * y.denominator;
    let qd = x.denominator * y.numerator;
    if in_i128(qn) && in_i128(qd) {
        lemma_spec_new_facts(qn, qd);
    }
    if x.numerator >= 0 && x.is_canonical() {
        match (exact_sqrt(x.numerator as nat), exact_sqrt(x.denominator as nat)) {
            (Some(a), Some(b)) => {
                assert(a * a == x.numerator as nat);
                assert(b * b == x.denominator as nat);
                assert(a <= a * a && b <= b * b) by (nonlinear_arith);
                lemma_spec_new_facts(a as int, b as int);
            },
            _ => {},
        }
    }
}

proof fn lemma_reduced_value(n: int, d: int)
    requires
        d > 0,
        in_i128(n),
        in_i128(d),
    ensures
        reduced(n, d).numerator * d == n * reduced(n, d).denominator,
{
    lemma_reduced_in_range(n, d);
    if n != 0 {
        let a = abs_int(n);
        let g = gcd_spec(a, d as nat);
        lemma_gcd_divides(a, d as nat);
        lemma_fundamental_div_mod(a as int, g as int);
        lemma_fundamental_div_mod(d, g as int);
        let qa = a as int / g as int;
        let qd = d / (g as int);
        assert(d == g * qd);
        let qn: int = if n < 0 {
            -qa
        } else {
            qa
        };
        assert(n == g * qn) by {
            if n < 0 {
                lemma_mul_unary_negation(g as int, qa);
            }
        }
        lemma_fundamental_div_mod_converse(n, g as int, qn, 0);
        lemma_mul_is_commutative(g as int, qn);
        assert(n / (g as int) == qn);
        assert(qn * d == n * qd) by (nonlinear_arith)
            requires
                n == g * qn,
                d == g * qd,
        ;
    }
}

/// The canonical form of `n/d` denotes the same rational as `n/d`.
pub proof fn lemma_spec_new_value(n: int, d: int)
    requires
        in_i128(n),
        in_i128(d),
    ensures
        ExactRational::spec_new(n, d) matches Some(r) ==> r.numerator * d == n * r.denominator,
{
    if d > 0 {
        lemma_reduced_value(n, d);
    } else if d < 0 && n != i128::MIN && d != i128::MIN {
        lemma_reduced_value(-n, -d);
        let r = reduced(-n, -d);
        assert(r.numerator * d == n * r.denominator) by (nonlinear_arith)
            requires
                r.numerator * (-d) == (-n) * r.denominator,
        ;
    }
}

/// Coefficients with `a·x + b·y == gcd(a, b)`.
proof fn lemma_bezout(a: nat, b: nat) -> (r: (int, int))
    ensures
        a * r.0 + b * r.1 == gcd_spec(a, b),
    decreases b,
{
    if b == 0 {
        (1, 0)
    } else {
        let m = a % b;
        let q = a / b;
        lemma_fundamental_div_mod(a as int, b as int);
        lemma_mod_pos_bound(a as int, b as int);
        let (x, y) = lemma_bezout(b, m);
        assert(a * y + b * (x - q * y) == b * x + m * y) by (nonlinear_arith)
            requires
                a == b * q + m,
        ;
        (y, x - q * y)
    }
}

proof fn lemma_cancel_step(p: int, q: int, p2: int, q2: int, s: int, x: int, y: int)
    requires
        (s * p) * x + q * y == 1,
        p * q2 == p2 * q,
    ensures
        q2 == q * (s * p2 * x + q2 * y),
{
    let a = (s * p) * x;
    let b = q * y;
    lemma_mul_is_distributive_add(q2, a, b);
    assert(q2 * a == s * x * (p * q2)) by (nonlinear_arith)
        requires
            a == (s * p) * x,
    ;
    assert(q2 * b == q * (q2 * y)) by (nonlinear_arith)
        requires
            b == q * y,
    ;
    assert(s * x * (p * q2) == s * x * (p2 * q));
    assert(s * x * (p2 * q) == q * (s * p2 * x)) by (nonlinear_arith);
    lemma_mul_is_distributive_add(q, s * p2 * x, q2 * y);
}

/// Two fractions in lowest terms with positive denominators that denote the
/// same rational are the same fraction.
pub proof fn lemma_lowest_terms_unique(p: int, q: int, p2: int, q2: int)
    requires
        q > 0,
        q2 > 0,
        gcd_spec(abs_int(p), q as nat) == 1,
        gcd_spec(abs_int(p2), q2 as nat) == 1,
        p * q2 == p2 * q,
    ensures
        p == p2,
        q == q2,
{
    let (x, y) = lemma_bezout(abs_int(p), q as nat);
    let (x2, y2) = lemma_bezout(abs_int(p2), q2 as nat);
    let s: int = if p < 0 {
        -1
    } else {
        1
    };
    let s2: int = if p2 < 0 {
        -1
    } else {
        1
    };
    assert(abs_int(p) == s * p) by {
        if p < 0 {
            assert(abs_int(p) == -p);
        }
    }
    assert(abs_int(p2) == s2 * p2) by {
        if p2 < 0 {
            assert(abs_int(p2) == -p2);
        }
    }
    let k1 = s * p2 * x + q2 * y;
    let k2 = s2 * p * x2 + q * y2;
    lemma_cancel_step(p, q, p2, q2, s, x, y);
    lemma_cancel_step(p2, q2, p, q, s2, x2, y2);
    assert(q == q2) by (nonlinear_arith)
        requires
            q > 0,
            q2 > 0,
            q2 == q * (s * p2 * x + q2 * y),
            q == q2 * (s2 * p * x2 + q * y2),
    ;
    assert(p == p2) by (nonlinear_arith)
        requires
            q > 0,
            q == q2,
            p * q2 == p2 * q,
    ;
}

/// A sum is the rational `x + y`, by cross-multiplication.
pub proof fn lemma_add_denotes(x: ExactRational, y: ExactRational)
    ensures
        x.spec_add(y) matches Some(r) ==> r.numerator * (x.denominator * y.denominator) == (x.numerator
            * y.denominator + y.numerator * x.denominator) * r.denominator,
{
    let left = x.numerator * y.denominator;
    let right = y.numerator * x.denominator;
    let den = x.denominator * y.denominator;
    if in_i128(left) && in_i128(right) && in_i128(left + right) && in_i128(den) {
        lemma_spec_new_value(left + right, den);
    }
}

/// A negation is the rational `-x`.
pub proof fn lemma_negate_denotes(x: ExactRational)
    ensures
        x.spec_negate() matches Some(r) ==> r.numerator * x.denominator == -x.numerator * r.denominator,
{
    if x.numerator != i128::MIN {
        lemma_spec_new_value(-x.numerator, x.denominator as int);
    }
}

/// A product is the rational `x · y`.
pub proof fn lemma_multiply_denotes(x: ExactRational, y: ExactRational)
    ensures
        x.spec_multiply(y) matches Some(r) ==> r.numerator * (x.denominator * y.denominator) == (x.numerator
            * y.numerator) * r.denominator,
{
    let num = x.numerator * y.numerator;
    let den = x.denominator * y.denominator;
    if in_i128(num) && in_i128(den) {
        lemma_spec_new_value(num, den);
    }
}

/// A quotient is the rational `x / y`.
pub proof fn lemma_divide_denotes(x: ExactRational, y: ExactRational)
    ensures
        x.spec_divide(y) matches Some(r) ==> y.numerator != 0 && r.numerator * (x.denominator * y.numerator) == (
        x.numerator * y.denominator) * r.denominator,
{
    let num = x.numerator * y.denominator;
    let den = x.denominator * y.numerator;
    if y.numerator != 0 && in_i128(num) && in_i128(den) {
        lemma_spec_new_value(num, den);
    }
}

/// A product with a positive factor cancels.
pub proof fn lemma_cancel_positive(a: int, b: int, k: int)
    requires
        k > 0,
        a * k == b * k,
    ensures
        a == b,
{
    assert(a == b) by (nonlinear_arith)
        requires
            k > 0,
            a * k == b * k,
    ;
}

pub fn checked_neg_i128(x: i128) -> (r: Option<i128>)
    ensures
        r matches Some(v) ==> v == -x,
        r is None <==> x == i128::MIN,
{
    if x == i128::MIN {
        None
    } else {
        Some(-x)
    }
}

pub fn abs_u128(x: i128) -> (r: u128)
    ensures
        r == abs_int(x as int),
{
    if x < 0 {
        if x == i128::MIN {
            170141183460469231731687303715884105728u128
        } else {
            (-x) as u128
        }
    } else {
        x as u128
    }
}

impl ExactRational {
    pub fn new(numerator: i128, denominator: i128) -> (r: Option<Self>)
        ensures
            r == Self::spec_new(numerator as int, denominator as int),
            r matches Some(v) ==> v.is_canonical() && v.is_reduced(),
    {
        proof {
            lemma_spec_new_canonical(numerator as int, denominator as int);
            lemma_spec_new_coprime(numerator as int, denominator as int);
        }
        if denominator == 0 {
            return None;
        }
        let (numerator, denominator) = if denominator < 0 {
            let n = checked_neg_i128(numerator);
            let d = checked_neg_i128(denominator);
            match (n, d) {
                (Some(n), Some(d)) => (n, d),
                _ => return None,
            }
        } else {
            (numerator, denominator)
        };
        if numerator == 0 {
            return Some(Self::zero());
        }
        proof {
            lemma_reduced_in_range(numerator as int, denominator as int);
            lemma_gcd_divides(abs_int(numerator as int), denominator as nat);
            lemma_mod_is_zero(denominator as nat, gcd_spec(abs_int(numerator as int), denominator as nat));
        }
        let divisor_u = gcd_u128(abs_u128(numerator), denominator as u128);
        let divisor = divisor_u as i128;
        proof {
            let g = divisor as int;
            lemma_fundamental_div_mod(abs_int(numerator as int) as int, g);
            if numerator < 0 {
                let m = -(numerator as int);
                let q = m / g;
                assert(m == g * q);
                assert(numerator == g * (-q)) by {
                    lemma_mul_unary_negation(g, q);
                }
                lemma_fundamental_div_mod_converse(numerator as int, g, -q, 0);
                lemma_mul_is_commutative(g, -q);
            }
        }
        Some(Self { numerator: numerator / divisor, denominator: denominator / divisor })
    }

    pub fn zero() -> (r: Self)
        ensures
            r == rat(0, 1),
            r.is_canonical(),
    {
        Self { numerator: 0, denominator: 1 }
    }

    pub fn one() -> (r: Self)
        ensures
            r == rat(1, 1),
            r.is_canonical(),
    {
        Self { numerator: 1, denominator: 1 }
    }

    pub fn from_integer(value: i64) -> (r: Self)
        ensures
            r == Self::spec_from_integer(value as int),
            r.denominator == 1,
            r.is_canonical(),
    {
        Self { numerator: value as i128, denominator: 1 }
    }

    pub fn numerator(self) -> (r: i128)
        ensures
            r == self.numerator,
    {
        self.numerator
    }

    pub fn denominator(self) -> (r: i128)
        ensures
            r == self.denominator,
    {
        self.denominator
    }

    pub fn add(self, other: Self) -> (r: Option<Self>)
        ensures
            r == self.spec_add(other),
            r matches Some(v) ==> v.is_canonical() && v.is_reduced(),
    {
        let left = self.numerator.checked_mul(other.denominator);
        let right = other.numerator.checked_mul(self.denominator);
        let den = self.denominator.checked_mul(other.denominator);
        match (left, right, den) {
            (Some(left), Some(right), Some(den)) => match left.checked_add(right) {
                Some(sum) => Self::new(sum, den),
                None => None,
            },
            _ => None,
        }
    }

    pub fn negate(self) -> (r: Option<Self>)
        ensures
            r == self.spec_negate(),
            r matches Some(v) ==> v.is_canonical() && v.is_reduced(),
    {
        match checked_neg_i128(self.numerator) {
            Some(n) => Self::new(n, self.denominator),
            None => None,
        }
    }

    pub fn subtract(self, other: Self) -> (r: Option<Self>)
        ensures
            r == self.spec_subtract(other),
            r matches Some(v) ==> v.is_canonical() && v.is_reduced(),
    {
        match other.negate() {
            Some(n) => self.add(n),
            None => None,
        }
    }

    pub fn multiply(self, other: Self) -> (r: Option<Self>)
        ensures
            r == self.spec_multiply(other),
            r matches Some(v) ==> v.is_canonical() && v.is_reduced(),
    {
        let num = self.numerator.checked_mul(other.numerator);
        let den = self.denominator.checked_mul(other.denominator);
        match (num, den) {
            (Some(num), Some(den)) => Self::new(num, den),
            _ => None,
        }
    }

    pub fn divide(self, other: Self) -> (r: Option<Self>)
        ensures
            r == self.spec_divide(other),
            r matches Some(v) ==> v.is_canonical() && v.is_reduced(),
    {
        if other.is_zero() {
            return None;
        }
        let num = self.numerator.checked_mul(other.denominator);
        let den = self.denominator.checked_mul(other.numerator);
        match (num, den) {
            (Some(num), Some(den)) => Self::new(num, den),
            _ => None,
        }
    }

    pub fn is_zero(self) -> (r: bool)
        ensures
            r == (self.numerator == 0),
    {
        self.numerator == 0
    }

    pub fn is_integer(self) -> (r: bool)
        ensures
            r == (self.denominator == 1),
    {
        self.denominator == 1
    }
}


/// The exact nonnegative square root of `v`, when `v` is a perfect square.
pub open spec fn exact_sqrt(v: nat) -> Option<nat> {
    if exists|x: nat| #[trigger] (x * x) == v {
        Some(choose|x: nat| #[trigger] (x * x) == v)
    } else {
        None
    }
}

pub proof fn lemma_square_monotone(a: nat, b: nat)
    requires
        a <= b,
    ensures
        a * a <= b * b,
{
    lemma_mul_le(a, b);
}

proof fn lemma_mul_le(a: nat, b: nat)
    requires
        a <= b,
    ensures
        a * a <= b * b,
{
    assert(a * a <= a * b) by (nonlinear_arith)
        requires
            a <= b,
    ;
    assert(a * b <= b * b) by (nonlinear_arith)
        requires
            a <= b,
    ;
}

pub proof fn lemma_square_unique(a: nat, b: nat)
    requires
        a * a == b * b,
    ensures
        a == b,
{
    if a < b {
        assert(a * a < b * b) by (nonlinear_arith)
            requires
                a < b,
        ;
    } else if b < a {
        assert(b * b < a * a) by (nonlinear_arith)
            requires
                b < a,
        ;
    }
}

/// Exact square root of an unsigned integer, by bisection on the floor root.
pub fn exact_square_root_u128(value: u128) -> (r: Option<u128>)
    ensures
        r matches Some(x) ==> x * x == value && exact_sqrt(value as nat) == Some(x as nat),
        r is None <==> exact_sqrt(value as nat) is None,
{
    if value < 2 {
        proof {
            assert((value as nat) * (value as nat) == value as nat) by (nonlinear_arith)
                requires
                    value < 2,
            ;
            let c = choose|x: nat| #[trigger] (x * x) == value as nat;
            lemma_square_unique(c, value as nat);
        }
        return Some(value);
    }
    let mut lo: u128 = 1;
    let mut hi: u128 = 18446744073709551616u128;
    proof {
        assert((hi as nat) * (hi as nat) == 340282366920938463463374607431768211456nat) by (nonlinear_arith)
            requires
                hi == 18446744073709551616u128,
        ;
    }
    while hi - lo > 1
        invariant
            1 <= lo < hi <= 18446744073709551616u128,
            (lo as nat) * (lo as nat) <= value,
            (value as nat) < (hi as nat) * (hi as nat),
        decreases hi - lo,
    {
        let mid = lo + (hi - lo) / 2;
        match mid.checked_mul(mid) {
            Some(square) => {
                if square <= value {
                    lo = mid;
                } else {
                    hi = mid;
                }
            },
            None => {
                hi = mid;
            },
        }
    }
    match lo.checked_mul(lo) {
        Some(square) => {
            if square == value {
                proof {
                    let c = choose|x: nat| #[trigger] (x * x) == value as nat;
                    lemma_square_unique(c, lo as nat);
                }
                Some(lo)
            } else {
                proof {
                    assert forall|x: nat| #[trigger] (x * x) != value as nat by {
                        if x <= lo {
                            lemma_square_monotone(x, lo as nat);
                        } else {
                            lemma_square_monotone(hi as nat, x);
                        }
                    }
                }
                None
            }
        },
        None => {
            proof {
                assert(false);
            }
            None
        },
    }
}

impl ExactRational {
    pub open spec fn spec_square_root(self) -> Option<ExactRational> {
        if self.numerator < 0 {
            None
        } else {
            match (exact_sqrt(self.numerator as nat), exact_sqrt(self.denominator as nat)) {
                (Some(a), Some(b)) => Self::spec_new(a as int, b as int),
                _ => None,
            }
        }
    }

    pub fn square_root(self) -> (r: Option<Self>)
        requires
            self.is_canonical(),
        ensures
            r == self.spec_square_root(),
            r matches Some(v) ==> v.is_canonical(),
    {
        if self.numerator < 0 {
            return None;
        }
        let numerator = match exact_square_root_u128(self.numerator as u128) {
            Some(n) => n,
            None => return None,
        };
        let denominator = match exact_square_root_u128(self.denominator as u128) {
            Some(d) => d,
            None => return None,
        };
        proof {
            assert(numerator <= self.numerator) by {
                if numerator > self.numerator {
                    lemma_square_monotone(self.numerator as nat, numerator as nat);
                    assert((numerator as nat) * (numerator as nat) >= (numerator as nat)) by (nonlinear_arith)
                        requires
                            numerator >= 1,
                    ;
                }
            }
            assert(denominator <= self.denominator) by {
                if denominator > self.denominator {
                    assert((denominator as nat) * (denominator as nat) >= (denominator as nat)) by (nonlinear_arith)
                        requires
                            denominator >= 1,
                    ;
                }
            }
        }
        Self::new(numerator as i128, denominator as i128)
    }

    pub fn sign(self) -> (r: core::cmp::Ordering)
        ensures
            r == (if self.numerator < 0 {
                core::cmp::Ordering::Less
            } else if self.numerator > 0 {
                core::cmp::Ordering::Greater
            } else {
                core::cmp::Ordering::Equal
            }),
    {
        if self.numerator < 0 {
            core::cmp::Ordering::Less
        } else if self.numerator > 0 {
            core::cmp::Ordering::Greater
        } else {
            core::cmp::Ordering::Equal
        }
    }
}

/// Squares taken out of `value` from `factor` upward, each factor as often
/// as its square divides what is left: the outside factor gathered and the
/// square-free part left.
pub open spec fn strip_squares(value: nat, factor: nat, outside: nat) -> (nat, nat)
    decreases value, value + 1 - factor,
{
    if factor < 2 || factor * factor > value {
        (outside, value)
    } else if value % (factor * factor) == 0 {
        let square: nat = factor * factor;
        let next: nat = value / square;
        proof {
            assert(next < value) by (nonlinear_arith)
                requires
                    factor >= 2,
                    square == factor * factor,
                    square <= value,
                    next == value / square,
            ;
            assert(square >= 4) by (nonlinear_arith)
                requires
                    factor >= 2,
                    square == factor * factor,
            ;
            assert(value >= square);
        }
        strip_squares(next, factor, outside * factor)
    } else {
        proof {
            assert(factor <= value) by (nonlinear_arith)
                requires
                    factor >= 2,
                    factor * factor <= value,
            ;
        }
        strip_squares(value, factor + 1, outside)
    }
}

/// No square above one divides `v`.
pub open spec fn square_free(v: nat) -> bool {
    forall|k: nat| 2 <= k ==> #[trigger] (v % (k * k)) != 0
}

proof fn lemma_square_free_quotient(v: nat, q: nat, k: nat)
    requires
        q >= 1,
        v % q == 0,
        k >= 2,
        (v / q) % (k * k) == 0,
    ensures
        v % (k * k) == 0,
{
    assert(k * k >= 4) by (nonlinear_arith)
        requires
            k >= 2,
    ;
    lemma_fundamental_div_mod(v as int, q as int);
    let t = v / q;
    lemma_fundamental_div_mod(t as int, (k * k) as int);
    let u = t / (k * k);
    assert(v == (k * k) * (u * q)) by (nonlinear_arith)
        requires
            v == q * t,
            t == (k * k) * u,
    ;
    lemma_mod_multiples_basic((u * q) as int, (k * k) as int);
    assert((k * k) * (u * q) == (u * q) * (k * k)) by (nonlinear_arith);
}

/// `value` split as `outside^2 * rest` with `rest` square free: the
/// coefficient and the radicand of the simplified square root.
pub fn square_free_sqrt_decomposition(value: u64) -> (r: Option<(u64, u64)>)
    ensures
        r matches Some((o, rest)) && strip_squares(value as nat, 2, 1) == (o as nat, rest as nat) && o * o * rest
            == value && o >= 1 && (value > 0 ==> square_free(rest as nat)),
{
    let mut v: u64 = value;
    let mut outside: u64 = 1;
    let mut factor: u64 = 2;
    while factor <= v / factor
        invariant
            2 <= factor,
            factor <= 0x1_0000_0001,
            v <= value,
            outside >= 1,
            outside * outside * v == value,
            strip_squares(v as nat, factor as nat, outside as nat) == strip_squares(value as nat, 2, 1),
            value > 0 ==> v >= 1,
            forall|k: nat| 2 <= k < factor ==> #[trigger] ((v as nat) % (k * k)) != 0,
        decreases v, v + 2 - factor,
    {
        proof {
            assert(factor * factor <= v) by (nonlinear_arith)
                requires
                    factor >= 2,
                    factor <= v / factor,
            ;
            assert(factor <= 0x1_0000_0000) by (nonlinear_arith)
                requires
                    factor * factor <= v,
                    v <= u64::MAX,
            ;
            assert(factor * factor >= 4) by (nonlinear_arith)
                requires
                    factor >= 2,
            ;
        }
        let square: u64 = factor * factor;
        if v % square == 0 {
            let q: u64 = v / square;
            proof {
                lemma_fundamental_div_mod(v as int, square as int);
                assert(v == square * q);
                assert(q < v) by (nonlinear_arith)
                    requires
                        v == square * q,
                        square >= 4,
                        v >= square,
                ;
                assert(outside * factor * (outside * factor) * q == value) by (nonlinear_arith)
                    requires
                        outside * outside * v == value,
                        v == square * q,
                        square == factor * factor,
                ;
                assert(q >= 1) by (nonlinear_arith)
                    requires
                        v == square * q,
                        v >= square,
                        square >= 4,
                ;
                assert(outside * factor >= 1) by (nonlinear_arith)
                    requires
                        outside >= 1,
                        factor >= 2,
                ;
                assert(outside * factor <= value) by (nonlinear_arith)
                    requires
                        outside * factor * (outside * factor) * q == value,
                        q >= 1,
                        outside * factor >= 1,
                ;
                assert forall|k: nat| 2 <= k < factor implies #[trigger] ((q as nat) % (k * k)) != 0 by {
                    if (q as nat) % (k * k) == 0 {
                        assert(v % square == 0);
                        assert(v / square == q);
                        lemma_square_free_quotient(v as nat, square as nat, k);
                    }
                }
            }
            v = q;
            outside = outside * factor;
        } else {
            proof {
                assert forall|k: nat| 2 <= k < factor + 1 implies #[trigger] ((v as nat) % (k * k)) != 0 by {
                    if k == factor {
                        assert(v % square != 0);
                    }
                }
                assert(factor <= v) by (nonlinear_arith)
                    requires
                        factor >= 2,
                        factor * factor <= v,
                ;
            }
            factor = factor + 1;
        }
    }
    proof {
        assert(factor * factor > v) by (nonlinear_arith)
            requires
                factor >= 2,
                factor > v / factor,
        ;
        if value > 0 {
            assert forall|k: nat| 2 <= k implies #[trigger] ((v as nat) % (k * k)) != 0 by {
                if k >= factor {
                    assert(k * k > v) by (nonlinear_arith)
                        requires
                            k >= factor,
                            factor * factor > v,
                    ;
                    lemma_small_mod((v as nat), (k * k) as nat);
                }
            }
        }
    }
    Some((outside, v))
}
} // verus!
