//! The small MathLive/LaTeX answer language that the web editor emits, read
//! into the exact answer tree. MathLive owns editing and layout; this module
//! is where editor output becomes an `AnswerNode`.

use vstd::prelude::*;
use vstd::utf8::encode_utf8;
use crate::answer::{AnswerBinaryOperator, AnswerNode, AnswerValue, MAX_ANSWER_AST_SIZE};
use crate::text::{
    chars_of, digits_value, is_ascii_digit, is_white_space, is_white_space_exec, lemma_digits_value_prefix,
};
use crate::answer::within_size_limit;
use crate::error::EditorError;
use crate::input::{capability_check, ensure_capability};
use crate::model::AnswerInputInterface;

verus! {

/// The longest accepted editor output, in bytes.
pub const MAX_MATHLIVE_LATEX_BYTES: usize = 4096;

/// Whether an opening `{` or `[` ever nests deeper than the answer budget,
/// scanning from position `i` at bracket depth `depth`.
pub open spec fn bracket_depth_exceeds(s: Seq<char>, i: nat, depth: nat) -> bool
    decreases s.len() - i,
{
    if i >= s.len() {
        false
    } else if s[i as int] == '{' || s[i as int] == '[' {
        depth + 1 > MAX_ANSWER_AST_SIZE || bracket_depth_exceeds(s, i + 1, depth + 1)
    } else if s[i as int] == '}' || s[i as int] == ']' {
        bracket_depth_exceeds(
            s,
            i + 1,
            if depth == 0 {
                0
            } else {
                (depth - 1) as nat
            },
        )
    } else {
        bracket_depth_exceeds(s, i + 1, depth)
    }
}

/// Non-overlapping occurrences of a nonempty `pat` in `s` from position `i`,
/// found left to right.
pub open spec fn count_matches(s: Seq<char>, pat: Seq<char>, i: nat) -> nat
    decreases s.len() - i,
{
    if pat.len() == 0 || i + pat.len() > s.len() {
        0
    } else if s.subrange(i as int, (i + pat.len()) as int) == pat {
        1 + count_matches(s, pat, i + pat.len())
    } else {
        count_matches(s, pat, i + 1)
    }
}

pub open spec fn frac_cmd() -> Seq<char> {
    seq!['\\', 'f', 'r', 'a', 'c']
}

pub open spec fn sqrt_cmd() -> Seq<char> {
    seq!['\\', 's', 'q', 'r', 't']
}

pub open spec fn placeholder_cmd() -> Seq<char> {
    seq!['\\', 'p', 'l', 'a', 'c', 'e', 'h', 'o', 'l', 'd', 'e', 'r']
}

pub open spec fn pm_cmd() -> Seq<char> {
    seq!['\\', 'p', 'm']
}

pub open spec fn times_cmd() -> Seq<char> {
    seq!['\\', 't', 'i', 'm', 'e', 's']
}

pub open spec fn cdot_cmd() -> Seq<char> {
    seq!['\\', 'c', 'd', 'o', 't']
}

pub open spec fn left_cmd() -> Seq<char> {
    seq!['\\', 'l', 'e', 'f', 't']
}

pub open spec fn right_cmd() -> Seq<char> {
    seq!['\\', 'r', 'i', 'g', 'h', 't']
}

/// Input that could drive the recursive-descent parser beyond the answer
/// budget: too many bytes, brackets nested too deeply, or too many
/// structure commands.
pub open spec fn exceeds_parse_budget(latex: Seq<char>) -> bool {
    encode_utf8(latex).len() > MAX_MATHLIVE_LATEX_BYTES || bracket_depth_exceeds(latex, 0, 0) || count_matches(
        latex,
        frac_cmd(),
        0,
    ) + count_matches(latex, sqrt_cmd(), 0) + count_matches(latex, placeholder_cmd(), 0)
        > MAX_ANSWER_AST_SIZE
}

fn starts_with_at(s: &Vec<char>, i: usize, pat: &Vec<char>) -> (r: bool)
    ensures
        r == (i + pat@.len() <= s@.len() && s@.subrange(i as int, i + pat@.len()) == pat@),
{
    if pat.len() > s.len() || i > s.len() - pat.len() {
        return false;
    }
    let mut k: usize = 0;
    while k < pat.len()
        invariant
            i + pat@.len() <= s@.len(),
            s@.len() == s.len(),
            k <= pat@.len(),
            forall|j: int| 0 <= j < k ==> s@[i + j] == pat@[j],
        decreases pat@.len() - k,
    {
        if s[i + k] != pat[k] {
            proof {
                assert(s@.subrange(i as int, i + pat@.len())[k as int] != pat@[k as int]);
            }
            return false;
        }
        k += 1;
    }
    proof {
        assert(s@.subrange(i as int, i + pat@.len()) =~= pat@);
    }
    true
}

fn count_matches_exec(s: &Vec<char>, pat: &Vec<char>) -> (r: usize)
    requires
        pat@.len() > 0,
    ensures
        r == count_matches(s@, pat@, 0),
{
    let mut i: usize = 0;
    let mut count: usize = 0;
    while i <= s.len()
        invariant
            pat@.len() > 0,
            i <= s@.len() + 1,
            count <= i,
            count + count_matches(s@, pat@, i as nat) == count_matches(s@, pat@, 0),
        decreases s@.len() + 1 - i,
    {
        if pat.len() > s.len() || i > s.len() - pat.len() {
            return count;
        }
        if starts_with_at(s, i, pat) {
            count += 1;
            i += pat.len();
        } else {
            i += 1;
        }
    }
    count
}

fn bracket_depth_exceeds_exec(s: &Vec<char>) -> (r: bool)
    ensures
        r == bracket_depth_exceeds(s@, 0, 0),
{
    let mut depth: usize = 0;
    let mut i: usize = 0;
    while i < s.len()
        invariant
            i <= s@.len(),
            depth <= MAX_ANSWER_AST_SIZE,
            bracket_depth_exceeds(s@, i as nat, depth as nat) == bracket_depth_exceeds(s@, 0, 0),
        decreases s@.len() - i,
    {
        let ch = s[i];
        if ch == '{' || ch == '[' {
            depth = depth + 1;
            if depth > MAX_ANSWER_AST_SIZE {
                return true;
            }
        } else if ch == '}' || ch == ']' {
            depth = if depth == 0 {
                0
            } else {
                depth - 1
            };
        }
        i += 1;
    }
    false
}

fn latex_exceeds_parse_budget(input: &str) -> (r: bool)
    ensures
        r == exceeds_parse_budget(input@),
{
    if input.as_bytes().len() > MAX_MATHLIVE_LATEX_BYTES {
        return true;
    }
    // The answer budget is also the parser's depth budget: deeply nested
    // input is refused here, before any recursion.
    let chars = chars_of(input);
    if bracket_depth_exceeds_exec(&chars) {
        return true;
    }
    let frac = chars_of("\\frac");
    let sqrt = chars_of("\\sqrt");
    let placeholder = chars_of("\\placeholder");
    proof {
        reveal_strlit("\\frac");
        reveal_strlit("\\sqrt");
        reveal_strlit("\\placeholder");
        assert(frac@ =~= frac_cmd());
        assert(sqrt@ =~= sqrt_cmd());
        assert(placeholder@ =~= placeholder_cmd());
    }
    let a = count_matches_exec(&chars, &frac);
    let b = count_matches_exec(&chars, &sqrt);
    let c = count_matches_exec(&chars, &placeholder);
    a as u128 + b as u128 + c as u128 > MAX_ANSWER_AST_SIZE as u128
}

/// `s` with every occurrence of a nonempty `pat` removed, left to right,
/// from position `i` on.
pub open spec fn without(s: Seq<char>, pat: Seq<char>, i: nat) -> Seq<char>
    decreases s.len() - i,
{
    if i >= s.len() {
        Seq::empty()
    } else if pat.len() > 0 && i + pat.len() <= s.len() && s.subrange(i as int, (i + pat.len()) as int) == pat {
        without(s, pat, i + pat.len())
    } else {
        seq![s[i as int]] + without(s, pat, i + 1)
    }
}

pub open spec fn without_white_space(s: Seq<char>) -> Seq<char> {
    s.filter(|c: char| !is_white_space(c))
}

/// Editor output with the `\left` and `\right` sizing commands and all
/// white space removed.
pub open spec fn compact(latex: Seq<char>) -> Seq<char> {
    without_white_space(without(without(latex, left_cmd(), 0), right_cmd(), 0))
}

fn remove_all(s: &Vec<char>, pat: &Vec<char>) -> (r: Vec<char>)
    requires
        pat@.len() > 0,
    ensures
        r@ == without(s@, pat@, 0),
{
    let mut out: Vec<char> = Vec::new();
    let mut i: usize = 0;
    while i < s.len()
        invariant
            pat@.len() > 0,
            i <= s@.len(),
            out@ + without(s@, pat@, i as nat) == without(s@, pat@, 0),
        decreases s@.len() - i,
    {
        if starts_with_at(s, i, pat) {
            i += pat.len();
        } else {
            proof {
                assert(out@.push(s@[i as int]) + without(s@, pat@, (i + 1) as nat) =~= out@ + (seq![
                    s@[i as int],
                ] + without(s@, pat@, (i + 1) as nat)));
            }
            out.push(s[i]);
            i += 1;
        }
    }
    proof {
        assert(out@ + Seq::<char>::empty() =~= out@);
    }
    out
}

fn compact_mathlive_latex(input: &str) -> (r: Vec<char>)
    ensures
        r@ == compact(input@),
{
    let chars = chars_of(input);
    let left = chars_of("\\left");
    let right = chars_of("\\right");
    proof {
        reveal_strlit("\\left");
        reveal_strlit("\\right");
        assert(left@ =~= left_cmd());
        assert(right@ =~= right_cmd());
    }
    let a = remove_all(&chars, &left);
    let b = remove_all(&a, &right);
    let mut out: Vec<char> = Vec::new();
    let mut i: usize = 0;
    while i < b.len()
        invariant
            i <= b@.len(),
            out@ == without_white_space(b@.take(i as int)),
        decreases b@.len() - i,
    {
        proof {
            assert(b@.take(i + 1) =~= b@.take(i as int).push(b@[i as int]));
            b@.take(i as int).lemma_filter_push(b@[i as int], |c: char| !is_white_space(c));
        }
        if !is_white_space_exec(b[i]) {
            out.push(b[i]);
        }
        i += 1;
    }
    proof {
        assert(b@.take(b@.len() as int) =~= b@);
    }
    out
}


pub open spec fn char_at(s: Seq<char>, p: nat) -> Option<char> {
    if p < s.len() {
        Some(s[p as int])
    } else {
        None
    }
}

#[verifier::opaque]
pub open spec fn starts_at(s: Seq<char>, p: nat, t: Seq<char>) -> bool {
    p + t.len() <= s.len() && s.subrange(p as int, (p + t.len()) as int) == t
}

pub proof fn lemma_starts_at(s: Seq<char>, p: nat, t: Seq<char>)
    requires
        starts_at(s, p, t),
        t.len() > 0,
    ensures
        p + t.len() <= s.len(),
        s[p as int] == t[0],
{
    reveal(starts_at);
    assert(s.subrange(p as int, (p + t.len()) as int)[0] == t[0]);
}

/// At the end of the input, or at the character that closes the enclosing
/// group.
pub open spec fn at_stop(s: Seq<char>, p: nat, stop: Option<char>) -> bool {
    (match stop {
        Some(c) => char_at(s, p) == Some(c),
        None => false,
    }) || p >= s.len()
}


pub open spec fn is_minus(c: Option<char>) -> bool {
    c == Some('-') || c == Some('\u{2212}')
}

/// The start of something that multiplies by juxtaposition.
pub open spec fn starts_atom(s: Seq<char>, p: nat) -> bool {
    starts_at(s, p, frac_cmd()) || starts_at(s, p, sqrt_cmd()) || starts_at(s, p, placeholder_cmd())
        || char_at(s, p) == Some('{') || char_at(s, p) == Some('(') || (p < s.len() && is_ascii_digit(
        s[p as int],
    ))
}

/// Where a `±` starts, the position after it.
pub open spec fn after_pm(s: Seq<char>, p: nat) -> Option<nat> {
    if starts_at(s, p, pm_cmd()) {
        Some(p + 3)
    } else if char_at(s, p) == Some('\u{b1}') {
        Some(p + 1)
    } else {
        None
    }
}

/// Where an explicit product operator starts, the position after it.
pub open spec fn after_times(s: Seq<char>, p: nat) -> Option<nat> {
    if starts_at(s, p, times_cmd()) {
        Some(p + 6)
    } else if starts_at(s, p, cdot_cmd()) {
        Some(p + 5)
    } else if char_at(s, p) == Some('*') || char_at(s, p) == Some('\u{d7}') {
        Some(p + 1)
    } else {
        None
    }
}

/// A well-formed step of the parser: it read forward from `p` and stayed
/// inside the input.
pub open spec fn step_ok(s: Seq<char>, p: nat, q: nat) -> bool {
    p <= q <= s.len()
}

/// An expression up to `stop`: empty, one sum, or a comma-separated list.
pub open spec fn expression_at(s: Seq<char>, p: nat, d: nat, stop: Option<char>) -> Option<(AnswerValue, nat)>
    decreases MAX_ANSWER_AST_SIZE - d, s.len() - p, 9nat,
{
    if d > MAX_ANSWER_AST_SIZE || p > s.len() {
        None
    } else if at_stop(s, p, stop) {
        Some((AnswerValue::Empty, p))
    } else {
        match additive_at(s, p, d, stop) {
            None => None,
            Some((first, p1)) => if !step_ok(s, p, p1) {
                None
            } else if at_stop(s, p1, stop) {
                Some((first, p1))
            } else if char_at(s, p1) != Some(',') {
                None
            } else {
                list_rest_at(s, seq![first], p1 + 1, d, stop)
            },
        }
    }
}

/// The remaining items of a comma-separated list.
pub open spec fn list_rest_at(
    s: Seq<char>,
    items: Seq<AnswerValue>,
    p: nat,
    d: nat,
    stop: Option<char>,
) -> Option<(AnswerValue, nat)>
    decreases MAX_ANSWER_AST_SIZE - d, s.len() - p, 9nat,
{
    if d > MAX_ANSWER_AST_SIZE || p > s.len() {
        None
    } else {
        match additive_at(s, p, d, stop) {
            None => None,
            Some((v, p1)) => if !step_ok(s, p, p1) {
                None
            } else if at_stop(s, p1, stop) {
                Some((AnswerValue::Tuple(items.push(v)), p1))
            } else if char_at(s, p1) != Some(',') {
                None
            } else {
                list_rest_at(s, items.push(v), p1 + 1, d, stop)
            },
        }
    }
}

/// A sum or difference of products; `a ± b` reads as `a + (±b)`.
pub open spec fn additive_at(s: Seq<char>, p: nat, d: nat, stop: Option<char>) -> Option<(AnswerValue, nat)>
    decreases MAX_ANSWER_AST_SIZE - d, s.len() - p, 8nat,
{
    if d > MAX_ANSWER_AST_SIZE || p > s.len() {
        None
    } else {
        match multiplicative_at(s, p, d, stop) {
            None => None,
            Some((left, p1)) => if !step_ok(s, p, p1) {
                None
            } else {
                additive_rest_at(s, left, p1, d, stop)
            },
        }
    }
}

/// The operator between two terms of a sum.
#[derive(Clone, Copy, Debug, PartialEq, Eq, Structural)]
pub enum TermSign {
    Plus,
    Minus,
    PlusMinus,
}

/// The operator that starts at `p` and the position after it.
pub open spec fn term_sign_at(s: Seq<char>, p: nat) -> Option<(TermSign, nat)> {
    if char_at(s, p) == Some('+') {
        Some((TermSign::Plus, p + 1))
    } else if is_minus(char_at(s, p)) {
        Some((TermSign::Minus, p + 1))
    } else {
        match after_pm(s, p) {
            Some(q) => Some((TermSign::PlusMinus, q)),
            None => None,
        }
    }
}

/// `left + right`, `left - right`, or `left + (±right)`.
pub open spec fn signed_sum(kind: TermSign, left: AnswerValue, right: AnswerValue) -> AnswerValue {
    match kind {
        TermSign::Plus => AnswerValue::Binary {
            operator: AnswerBinaryOperator::Add,
            left: Box::new(left),
            right: Box::new(right),
        },
        TermSign::Minus => AnswerValue::Binary {
            operator: AnswerBinaryOperator::Subtract,
            left: Box::new(left),
            right: Box::new(right),
        },
        TermSign::PlusMinus => AnswerValue::Binary {
            operator: AnswerBinaryOperator::Add,
            left: Box::new(left),
            right: Box::new(AnswerValue::PlusMinus(Box::new(right))),
        },
    }
}

pub open spec fn additive_rest_at(
    s: Seq<char>,
    left: AnswerValue,
    p: nat,
    d: nat,
    stop: Option<char>,
) -> Option<(AnswerValue, nat)>
    decreases MAX_ANSWER_AST_SIZE - d, s.len() - p, 7nat,
{
    if d > MAX_ANSWER_AST_SIZE || p > s.len() {
        None
    } else if at_stop(s, p, stop) || char_at(s, p) == Some(',') {
        Some((left, p))
    } else {
        proof {
            if starts_at(s, p, pm_cmd()) {
                lemma_starts_at(s, p, pm_cmd());
            }
        }
        match term_sign_at(s, p) {
            None => Some((left, p)),
            Some((kind, q)) => match multiplicative_at(s, q, d, stop) {
                None => None,
                Some((right, p2)) => if !step_ok(s, q, p2) {
                    None
                } else {
                    additive_rest_at(s, signed_sum(kind, left, right), p2, d, stop)
                },
            },
        }
    }
}

/// A product of signed factors; a whole number or placeholder directly
/// before `\frac` is a mixed number.
pub open spec fn multiplicative_at(s: Seq<char>, p: nat, d: nat, stop: Option<char>) -> Option<(AnswerValue, nat)>
    decreases MAX_ANSWER_AST_SIZE - d, s.len() - p, 6nat,
{
    if d > MAX_ANSWER_AST_SIZE || p > s.len() {
        None
    } else {
        match unary_at(s, p, d, stop) {
            None => None,
            Some((left, p1)) => if !step_ok(s, p, p1) {
                None
            } else {
                multiplicative_rest_at(s, left, p1, d, stop)
            },
        }
    }
}

pub open spec fn ends_product(s: Seq<char>, p: nat, stop: Option<char>) -> bool {
    at_stop(s, p, stop) || char_at(s, p) == Some(',') || char_at(s, p) == Some('+') || is_minus(char_at(s, p))
        || after_pm(s, p) is Some
}

pub open spec fn multiplicative_rest_at(
    s: Seq<char>,
    left: AnswerValue,
    p: nat,
    d: nat,
    stop: Option<char>,
) -> Option<(AnswerValue, nat)>
    decreases MAX_ANSWER_AST_SIZE - d, s.len() - p, 5nat,
{
    if d > MAX_ANSWER_AST_SIZE || p > s.len() {
        None
    } else if ends_product(s, p, stop) {
        Some((left, p))
    } else if (left is Integer || left is Empty) && starts_at(s, p, frac_cmd()) {
        match fraction_at(s, p, d) {
            None => None,
            Some((f, p1)) => if !step_ok(s, p + 1, p1) {
                None
            } else {
                match f {
                    AnswerValue::Fraction { numerator, denominator } => multiplicative_rest_at(
                        s,
                        AnswerValue::MixedFraction { whole: Box::new(left), numerator, denominator },
                        p1,
                        d,
                        stop,
                    ),
                    _ => None,
                }
            },
        }
    } else {
        let q = match after_times(s, p) {
            Some(q) => q,
            None => p,
        };
        proof {
            if starts_at(s, p, times_cmd()) {
                lemma_starts_at(s, p, times_cmd());
            } else if starts_at(s, p, cdot_cmd()) {
                lemma_starts_at(s, p, cdot_cmd());
            }
        }
        if q == p && !starts_atom(s, p) {
            Some((left, p))
        } else {
            match unary_at(s, q, d, stop) {
                None => None,
                Some((right, p2)) => if !step_ok(s, p + 1, p2) {
                    None
                } else {
                    multiplicative_rest_at(
                        s,
                        AnswerValue::Binary {
                            operator: AnswerBinaryOperator::Multiply,
                            left: Box::new(left),
                            right: Box::new(right),
                        },
                        p2,
                        d,
                        stop,
                    )
                },
            }
        }
    }
}

/// Prefix minus and `±`, each one level deeper, over an atom.
pub open spec fn unary_at(s: Seq<char>, p: nat, d: nat, stop: Option<char>) -> Option<(AnswerValue, nat)>
    decreases MAX_ANSWER_AST_SIZE - d, s.len() - p, 4nat,
{
    if d > MAX_ANSWER_AST_SIZE || p > s.len() {
        None
    } else if is_minus(char_at(s, p)) {
        if d >= MAX_ANSWER_AST_SIZE {
            None
        } else {
            match unary_at(s, p + 1, d + 1, stop) {
                None => None,
                Some((v, p1)) => Some((AnswerValue::Negative(Box::new(v)), p1)),
            }
        }
    } else {
        match after_pm(s, p) {
            Some(q) => if d >= MAX_ANSWER_AST_SIZE {
                None
            } else {
                match unary_at(s, q, d + 1, stop) {
                    None => None,
                    Some((v, p1)) => Some((AnswerValue::PlusMinus(Box::new(v)), p1)),
                }
            },
            None => if at_stop(s, p, stop) || char_at(s, p) == Some(',') {
                Some((AnswerValue::Empty, p))
            } else {
                atom_at(s, p, d, stop)
            },
        }
    }
}

/// A fraction, root, placeholder, group, parenthesized expression or number.
pub open spec fn atom_at(s: Seq<char>, p: nat, d: nat, stop: Option<char>) -> Option<(AnswerValue, nat)>
    decreases MAX_ANSWER_AST_SIZE - d, s.len() - p, 3nat,
{
    if d > MAX_ANSWER_AST_SIZE || p > s.len() {
        None
    } else if starts_at(s, p, frac_cmd()) {
        fraction_at(s, p, d)
    } else if starts_at(s, p, sqrt_cmd()) {
        root_at(s, p, d)
    } else if starts_at(s, p, placeholder_cmd()) {
        placeholder_at(s, p, d)
    } else if char_at(s, p) == Some('{') {
        group_at(s, p, d)
    } else if char_at(s, p) == Some('(') {
        if d >= MAX_ANSWER_AST_SIZE {
            None
        } else {
            match expression_at(s, p + 1, d + 1, Some(')')) {
                None => None,
                Some((v, p1)) => if char_at(s, p1) == Some(')') {
                    Some((v, p1 + 1))
                } else {
                    None
                },
            }
        }
    } else if at_stop(s, p, stop) {
        Some((AnswerValue::Empty, p))
    } else {
        number_at(s, p)
    }
}

/// `\frac` with two required arguments.
pub open spec fn fraction_at(s: Seq<char>, p: nat, d: nat) -> Option<(AnswerValue, nat)>
    decreases MAX_ANSWER_AST_SIZE - d, s.len() - p, 2nat,
{
    if d > MAX_ANSWER_AST_SIZE || p > s.len() || !starts_at(s, p, frac_cmd()) {
        None
    } else {
        proof {
            lemma_starts_at(s, p, frac_cmd());
        }
        match required_argument_at(s, p + 5, d) {
            None => None,
            Some((n, p1)) => if !step_ok(s, p + 5, p1) {
                None
            } else {
                match required_argument_at(s, p1, d) {
                    None => None,
                    Some((den, p2)) => Some(
                        (AnswerValue::Fraction { numerator: Box::new(n), denominator: Box::new(den) }, p2),
                    ),
                }
            },
        }
    }
}

/// `\sqrt` with an optional `[index]` and a required radicand; an empty
/// index is no index.
pub open spec fn root_at(s: Seq<char>, p: nat, d: nat) -> Option<(AnswerValue, nat)>
    decreases MAX_ANSWER_AST_SIZE - d, s.len() - p, 2nat,
{
    if d > MAX_ANSWER_AST_SIZE || p > s.len() || !starts_at(s, p, sqrt_cmd()) {
        None
    } else {
        proof {
            lemma_starts_at(s, p, sqrt_cmd());
        }
        if char_at(s, p + 5) == Some('[') {
            if d >= MAX_ANSWER_AST_SIZE {
                None
            } else {
                match expression_at(s, p + 6, d + 1, Some(']')) {
                    None => None,
                    Some((v, p1)) => if !step_ok(s, p + 6, p1) || char_at(s, p1) != Some(']') {
                        None
                    } else {
                        match required_argument_at(s, p1 + 1, d) {
                            None => None,
                            Some((radicand, p2)) => Some(
                                (
                                    AnswerValue::Root {
                                        radicand: Box::new(radicand),
                                        index: if v is Empty {
                                            None
                                        } else {
                                            Some(Box::new(v))
                                        },
                                    },
                                    p2,
                                ),
                            ),
                        }
                    },
                }
            }
        } else {
            match required_argument_at(s, p + 5, d) {
                None => None,
                Some((radicand, p2)) => Some((AnswerValue::Root { radicand: Box::new(radicand), index: None }, p2)),
            }
        }
    }
}

/// A group, a nested structure command, or a single digit.
pub open spec fn required_argument_at(s: Seq<char>, p: nat, d: nat) -> Option<(AnswerValue, nat)>
    decreases MAX_ANSWER_AST_SIZE - d, s.len() - p, 4nat,
{
    if d > MAX_ANSWER_AST_SIZE || p > s.len() {
        None
    } else if char_at(s, p) == Some('{') {
        group_at(s, p, d)
    } else if starts_at(s, p, frac_cmd()) || starts_at(s, p, sqrt_cmd()) || starts_at(s, p, placeholder_cmd()) {
        atom_at(s, p, d, None)
    } else if p < s.len() && is_ascii_digit(s[p as int]) {
        Some((AnswerValue::Integer((s[p as int] as int - '0' as int) as i64), p + 1))
    } else {
        None
    }
}

/// The position after the first `]` at or after `i`.
pub open spec fn after_closing_bracket(s: Seq<char>, i: nat) -> Option<nat>
    decreases s.len() - i,
{
    if i >= s.len() {
        None
    } else if s[i as int] == ']' {
        Some(i + 1)
    } else {
        after_closing_bracket(s, i + 1)
    }
}

/// `\placeholder`, an optional `[...]` name, and a group.
pub open spec fn placeholder_at(s: Seq<char>, p: nat, d: nat) -> Option<(AnswerValue, nat)>
    decreases MAX_ANSWER_AST_SIZE - d, s.len() - p, 2nat,
{
    if d > MAX_ANSWER_AST_SIZE || p > s.len() || !starts_at(s, p, placeholder_cmd()) {
        None
    } else {
        proof {
            lemma_starts_at(s, p, placeholder_cmd());
        }
        if char_at(s, p + 12) == Some('[') {
            match after_closing_bracket(s, p + 13) {
                None => None,
                Some(q) => if q > s.len() || q <= p {
                    None
                } else {
                    group_at(s, q, d)
                },
            }
        } else {
            group_at(s, p + 12, d)
        }
    }
}

/// `{expression}`, one level deeper.
pub open spec fn group_at(s: Seq<char>, p: nat, d: nat) -> Option<(AnswerValue, nat)>
    decreases MAX_ANSWER_AST_SIZE - d, s.len() - p, 1nat,
{
    if d > MAX_ANSWER_AST_SIZE || p > s.len() || char_at(s, p) != Some('{') || d >= MAX_ANSWER_AST_SIZE {
        None
    } else {
        match expression_at(s, p + 1, d + 1, Some('}')) {
            None => None,
            Some((v, p1)) => if char_at(s, p1) == Some('}') {
                Some((v, p1 + 1))
            } else {
                None
            },
        }
    }
}

/// The end of the run of digits with at most one `.` that starts at `p`, and
/// the position of that `.`.
pub open spec fn number_end(s: Seq<char>, p: nat, dot: Option<nat>) -> (nat, Option<nat>)
    decreases s.len() - p,
{
    if p >= s.len() {
        (p, dot)
    } else if is_ascii_digit(s[p as int]) {
        number_end(s, p + 1, dot)
    } else if s[p as int] == '.' && dot is None {
        number_end(s, p + 1, Some(p))
    } else {
        (p, dot)
    }
}

/// A decimal integer or an exact decimal `w.f`; an empty whole part is zero.
pub open spec fn number_at(s: Seq<char>, p: nat) -> Option<(AnswerValue, nat)> {
    let (end, dot) = number_end(s, p, None);
    if end == p {
        None
    } else {
        match dot {
            Some(k) => {
                let whole = s.subrange(p as int, k as int);
                let fraction = s.subrange((k + 1) as int, end as int);
                let digits = if whole.len() == 0 {
                    seq!['0'] + fraction
                } else {
                    whole + fraction
                };
                if digits_value(digits) > i64::MAX || fraction.len() > u32::MAX {
                    None
                } else {
                    Some(
                        (
                            AnswerValue::ExactDecimal {
                                coefficient: digits_value(digits) as i64,
                                scale: fraction.len() as u32,
                            },
                            end,
                        ),
                    )
                }
            },
            None => if digits_value(s.subrange(p as int, end as int)) > i64::MAX {
                None
            } else {
                Some((AnswerValue::Integer(digits_value(s.subrange(p as int, end as int)) as i64), end))
            },
        }
    }
}

/// The whole compact input as one expression, or `None`.
pub open spec fn parse_compact(s: Seq<char>) -> Option<AnswerValue> {
    match expression_at(s, 0, 0, None) {
        Some((v, p)) => if p == s.len() {
            Some(v)
        } else {
            None
        },
        None => None,
    }
}


/// The answer that the editor output stands for: refused interfaces and
/// over-budget input are errors; text that does not parse is kept verbatim
/// as an error node; the result must fit the answer budget and the
/// interface's capabilities.
pub open spec fn mathlive_answer(latex: Seq<char>, i: AnswerInputInterface) -> Result<AnswerValue, EditorError> {
    if !i.structurally_valid() {
        Err(EditorError::InputInterfaceViolation)
    } else if exceeds_parse_budget(latex) {
        Err(EditorError::AnswerSizeLimit { max_size: MAX_ANSWER_AST_SIZE })
    } else {
        let a = match parse_compact(compact(latex)) {
            Some(v) => v,
            None => AnswerValue::NanError(latex),
        };
        if !within_size_limit(a) {
            Err(EditorError::AnswerSizeLimit { max_size: MAX_ANSWER_AST_SIZE })
        } else {
            match capability_check(a, i) {
                Ok(_) => Ok(a),
                Err(e) => Err(e),
            }
        }
    }
}

/// Reads editor output into an answer tree under an input interface.
pub fn parse_mathlive_answer(latex: &str, input_interface: &AnswerInputInterface) -> (r: Result<
    AnswerNode,
    EditorError,
>)
    ensures
        match r {
            Ok(n) => mathlive_answer(latex@, *input_interface) == Ok::<AnswerValue, EditorError>(n@),
            Err(e) => mathlive_answer(latex@, *input_interface) == Err::<AnswerValue, EditorError>(e),
        },
{
    if !input_interface.is_structurally_valid() {
        return Err(EditorError::InputInterfaceViolation);
    }
    if latex_exceeds_parse_budget(latex) {
        return Err(EditorError::AnswerSizeLimit { max_size: MAX_ANSWER_AST_SIZE });
    }
    let compact = compact_mathlive_latex(latex);
    let mut pos: usize = 0;
    let answer = match parse_expression(&compact, &mut pos, 0, None) {
        Ok(answer) => if pos == compact.len() {
            answer
        } else {
            AnswerNode::NanError(latex.to_owned())
        },
        Err(()) => AnswerNode::NanError(latex.to_owned()),
    };
    if !answer.is_within_size_limit() {
        return Err(EditorError::AnswerSizeLimit { max_size: MAX_ANSWER_AST_SIZE });
    }
    match ensure_capability(&answer, input_interface) {
        Ok(()) => Ok(answer),
        Err(e) => Err(e),
    }
}

/// The characters that close a nested expression.
pub open spec fn valid_stop(stop: Option<char>) -> bool {
    stop == None::<char> || stop == Some(')') || stop == Some(']') || stop == Some('}')
}

/// The parser's outcome agrees with the grammar: an error exactly where the
/// grammar has none, otherwise the same tree and end position.
pub open spec fn parse_matches(
    r: Result<AnswerNode, ()>,
    expected: Option<(AnswerValue, nat)>,
    s: Seq<char>,
    p0: nat,
    p1: nat,
) -> bool {
    match r {
        Ok(v) => expected == Some((v@, p1)) && step_ok(s, p0, p1),
        Err(_) => expected is None,
    }
}

fn peek(s: &Vec<char>, p: usize) -> (r: Option<char>)
    ensures
        r == char_at(s@, p as nat),
{
    if p < s.len() {
        Some(s[p])
    } else {
        None
    }
}

fn at_stop_exec(s: &Vec<char>, p: usize, stop: Option<char>) -> (r: bool)
    ensures
        r == at_stop(s@, p as nat, stop),
{
    let at = match stop {
        Some(c) => peek(s, p) == Some(c),
        None => false,
    };
    at || p >= s.len()
}

fn is_minus_exec(c: Option<char>) -> (r: bool)
    ensures
        r == is_minus(c),
{
    c == Some('-') || c == Some('\u{2212}')
}

fn frac_text() -> (r: Vec<char>)
    ensures
        r@ == frac_cmd(),
{
    let r = chars_of("\\frac");
    proof {
        reveal_strlit("\\frac");
        assert(r@ =~= frac_cmd());
    }
    r
}

fn sqrt_text() -> (r: Vec<char>)
    ensures
        r@ == sqrt_cmd(),
{
    let r = chars_of("\\sqrt");
    proof {
        reveal_strlit("\\sqrt");
        assert(r@ =~= sqrt_cmd());
    }
    r
}

fn placeholder_text() -> (r: Vec<char>)
    ensures
        r@ == placeholder_cmd(),
{
    let r = chars_of("\\placeholder");
    proof {
        reveal_strlit("\\placeholder");
        assert(r@ =~= placeholder_cmd());
    }
    r
}

fn pm_text() -> (r: Vec<char>)
    ensures
        r@ == pm_cmd(),
{
    let r = chars_of("\\pm");
    proof {
        reveal_strlit("\\pm");
        assert(r@ =~= pm_cmd());
    }
    r
}

fn times_text() -> (r: Vec<char>)
    ensures
        r@ == times_cmd(),
{
    let r = chars_of("\\times");
    proof {
        reveal_strlit("\\times");
        assert(r@ =~= times_cmd());
    }
    r
}

fn cdot_text() -> (r: Vec<char>)
    ensures
        r@ == cdot_cmd(),
{
    let r = chars_of("\\cdot");
    proof {
        reveal_strlit("\\cdot");
        assert(r@ =~= cdot_cmd());
    }
    r
}

fn starts_with_text(s: &Vec<char>, p: usize, pat: &Vec<char>) -> (r: bool)
    ensures
        r == starts_at(s@, p as nat, pat@),
        r ==> p + pat@.len() <= s@.len(),
{
    proof {
        reveal(starts_at);
    }
    starts_with_at(s, p, pat)
}

fn after_pm_exec(s: &Vec<char>, p: usize) -> (r: Option<usize>)
    requires
        p <= s@.len(),
    ensures
        match r {
            Some(q) => after_pm(s@, p as nat) == Some(q as nat) && p < q <= s@.len(),
            None => after_pm(s@, p as nat) is None,
        },
{
    let n = s.len();
    if starts_with_text(s, p, &pm_text()) {
        Some(p + 3)
    } else if peek(s, p) == Some('\u{b1}') {
        Some(p + 1)
    } else {
        None
    }
}

fn after_times_exec(s: &Vec<char>, p: usize) -> (r: Option<usize>)
    requires
        p <= s@.len(),
    ensures
        match r {
            Some(q) => after_times(s@, p as nat) == Some(q as nat) && p < q <= s@.len(),
            None => after_times(s@, p as nat) is None,
        },
{
    let n = s.len();
    if starts_with_text(s, p, &times_text()) {
        Some(p + 6)
    } else if starts_with_text(s, p, &cdot_text()) {
        Some(p + 5)
    } else if peek(s, p) == Some('*') || peek(s, p) == Some('\u{d7}') {
        Some(p + 1)
    } else {
        None
    }
}

fn is_ascii_digit_exec(c: char) -> (r: bool)
    ensures
        r == is_ascii_digit(c),
{
    '0' <= c && c <= '9'
}

fn starts_atom_exec(s: &Vec<char>, p: usize) -> (r: bool)
    ensures
        r == starts_atom(s@, p as nat),
{
    starts_with_text(s, p, &frac_text()) || starts_with_text(s, p, &sqrt_text()) || starts_with_text(
        s,
        p,
        &placeholder_text(),
    ) || peek(s, p) == Some('{') || peek(s, p) == Some('(') || (p < s.len() && is_ascii_digit_exec(s[p]))
}

fn ends_product_exec(s: &Vec<char>, p: usize, stop: Option<char>) -> (r: bool)
    requires
        p <= s@.len(),
    ensures
        r == ends_product(s@, p as nat, stop),
{
    at_stop_exec(s, p, stop) || peek(s, p) == Some(',') || peek(s, p) == Some('+') || is_minus_exec(peek(s, p))
        || after_pm_exec(s, p).is_some()
}

fn parse_expression(s: &Vec<char>, pos: &mut usize, depth: usize, stop: Option<char>) -> (r: Result<AnswerNode, ()>)
    requires
        valid_stop(stop),
        *old(pos) <= s@.len(),
        depth <= MAX_ANSWER_AST_SIZE,
    ensures
        *final(pos) <= s@.len(),
        parse_matches(r, expression_at(s@, *old(pos) as nat, depth as nat, stop), s@, *old(pos) as nat, *final(pos) as nat),
    decreases MAX_ANSWER_AST_SIZE - depth, s@.len() - *old(pos), 9nat,
{
    let n = s.len();
    let p0 = *pos;
    if at_stop_exec(s, *pos, stop) {
        return Ok(AnswerNode::Empty);
    }
    let first = match parse_additive(s, pos, depth, stop) {
        Ok(v) => v,
        Err(()) => {
            assert(additive_at(s@, p0 as nat, depth as nat, stop) is None);
            assert(!at_stop(s@, p0 as nat, stop));
            assert(expression_at(s@, p0 as nat, depth as nat, stop) is None);
            return Err(());
        },
    };
    if at_stop_exec(s, *pos, stop) {
        return Ok(first);
    }
    if peek(s, *pos) != Some(',') {
        return Err(());
    }
    *pos = *pos + 1;
    let mut values: Vec<AnswerNode> = Vec::new();
    proof {
        crate::solutions::lemma_views_push(values@, first);
        assert(crate::solutions::views(values@.push(first)) =~= seq![first@]);
    }
    values.push(first);
    loop
        invariant
            n == s@.len(),
            p0 < *pos <= s@.len(),
            p0 == *old(pos),
            valid_stop(stop),
            depth <= MAX_ANSWER_AST_SIZE,
            expression_at(s@, p0 as nat, depth as nat, stop) == list_rest_at(
                s@,
                crate::solutions::views(values@),
                *pos as nat,
                depth as nat,
                stop,
            ),
        decreases s@.len() - *pos,
    {
        let before = *pos;
        let v = match parse_additive(s, pos, depth, stop) {
            Ok(v) => v,
            Err(()) => return Err(()),
        };
        proof {
            crate::solutions::lemma_views_push(values@, v);
        }
        values.push(v);
        if at_stop_exec(s, *pos, stop) {
            proof {
                crate::solutions::lemma_views_of_tuple(values@);
            }
            return Ok(AnswerNode::Tuple(values));
        }
        if peek(s, *pos) != Some(',') {
            return Err(());
        }
        *pos = *pos + 1;
        assert(*pos > before);
    }
}

fn term_sign_exec(s: &Vec<char>, p: usize) -> (r: Option<(TermSign, usize)>)
    requires
        p <= s@.len(),
    ensures
        match r {
            Some((kind, q)) => term_sign_at(s@, p as nat) == Some((kind, q as nat)) && p < q <= s@.len(),
            None => term_sign_at(s@, p as nat) is None,
        },
{
    let n = s.len();
    let c = peek(s, p);
    if c == Some('+') {
        Some((TermSign::Plus, p + 1))
    } else if is_minus_exec(c) {
        Some((TermSign::Minus, p + 1))
    } else {
        match after_pm_exec(s, p) {
            Some(q) => Some((TermSign::PlusMinus, q)),
            None => None,
        }
    }
}

fn signed_sum_exec(kind: TermSign, left: AnswerNode, right: AnswerNode) -> (r: AnswerNode)
    ensures
        r@ == signed_sum(kind, left@, right@),
{
    proof {
        reveal_with_fuel(crate::answer::view_node, 2);
    }
    match kind {
        TermSign::Plus => AnswerNode::Binary {
            operator: AnswerBinaryOperator::Add,
            left: Box::new(left),
            right: Box::new(right),
        },
        TermSign::Minus => AnswerNode::Binary {
            operator: AnswerBinaryOperator::Subtract,
            left: Box::new(left),
            right: Box::new(right),
        },
        TermSign::PlusMinus => AnswerNode::Binary {
            operator: AnswerBinaryOperator::Add,
            left: Box::new(left),
            right: Box::new(AnswerNode::PlusMinus(Box::new(right))),
        },
    }
}

fn parse_additive(s: &Vec<char>, pos: &mut usize, depth: usize, stop: Option<char>) -> (r: Result<AnswerNode, ()>)
    requires
        valid_stop(stop),
        *old(pos) <= s@.len(),
        depth <= MAX_ANSWER_AST_SIZE,
    ensures
        *final(pos) <= s@.len(),
        parse_matches(r, additive_at(s@, *old(pos) as nat, depth as nat, stop), s@, *old(pos) as nat, *final(pos) as nat),
    decreases MAX_ANSWER_AST_SIZE - depth, s@.len() - *old(pos), 8nat,
{
    let p0 = *pos;
    let mut left = match parse_multiplicative(s, pos, depth, stop) {
        Ok(v) => v,
        Err(()) => return Err(()),
    };
    loop
        invariant
            p0 <= *pos <= s@.len(),
            p0 == *old(pos),
            valid_stop(stop),
            depth <= MAX_ANSWER_AST_SIZE,
            additive_at(s@, p0 as nat, depth as nat, stop) == additive_rest_at(s@, left@, *pos as nat, depth as nat, stop),
        decreases s@.len() - *pos,
    {
        if at_stop_exec(s, *pos, stop) || peek(s, *pos) == Some(',') {
            return Ok(left);
        }
        match term_sign_exec(s, *pos) {
            None => return Ok(left),
            Some((kind, q)) => {
                *pos = q;
                let right = match parse_multiplicative(s, pos, depth, stop) {
                    Ok(v) => v,
                    Err(()) => return Err(()),
                };
                left = signed_sum_exec(kind, left, right);
            },
        }
    }
}

fn parse_multiplicative(s: &Vec<char>, pos: &mut usize, depth: usize, stop: Option<char>) -> (r: Result<
    AnswerNode,
    (),
>)
    requires
        valid_stop(stop),
        *old(pos) <= s@.len(),
        depth <= MAX_ANSWER_AST_SIZE,
    ensures
        *final(pos) <= s@.len(),
        parse_matches(r, multiplicative_at(s@, *old(pos) as nat, depth as nat, stop), s@, *old(pos) as nat, *final(pos) as nat),
    decreases MAX_ANSWER_AST_SIZE - depth, s@.len() - *old(pos), 6nat,
{
    let n = s.len();
    let p0 = *pos;
    let mut left = match parse_unary(s, pos, depth, stop) {
        Ok(v) => v,
        Err(()) => return Err(()),
    };
    loop
        invariant
            n == s@.len(),
            p0 <= *pos <= s@.len(),
            p0 == *old(pos),
            valid_stop(stop),
            depth <= MAX_ANSWER_AST_SIZE,
            multiplicative_at(s@, p0 as nat, depth as nat, stop) == multiplicative_rest_at(
                s@,
                left@,
                *pos as nat,
                depth as nat,
                stop,
            ),
        decreases s@.len() - *pos,
    {
        if ends_product_exec(s, *pos, stop) {
            return Ok(left);
        }
        let whole_like = matches!(left, AnswerNode::Integer(_) | AnswerNode::Empty);
        if whole_like && starts_with_text(s, *pos, &frac_text()) {
            // Keeps the established mixed-number spelling 1\frac{1}{2}.
            let fraction = match parse_fraction(s, pos, depth) {
                Ok(v) => v,
                Err(()) => return Err(()),
            };
            match fraction {
                AnswerNode::Fraction { numerator, denominator } => {
                    left = AnswerNode::MixedFraction { whole: Box::new(left), numerator, denominator };
                },
                _ => return Err(()),
            }
        } else {
            let before = *pos;
            match after_times_exec(s, *pos) {
                Some(q) => {
                    *pos = q;
                },
                None => if !starts_atom_exec(s, *pos) {
                    return Ok(left);
                },
            }
            let right = match parse_unary(s, pos, depth, stop) {
                Ok(v) => v,
                Err(()) => return Err(()),
            };
            assert(*pos > before);
            left = AnswerNode::Binary {
                operator: AnswerBinaryOperator::Multiply,
                left: Box::new(left),
                right: Box::new(right),
            };
        }
    }
}

fn parse_unary(s: &Vec<char>, pos: &mut usize, depth: usize, stop: Option<char>) -> (r: Result<AnswerNode, ()>)
    requires
        valid_stop(stop),
        *old(pos) <= s@.len(),
        depth <= MAX_ANSWER_AST_SIZE,
    ensures
        *final(pos) <= s@.len(),
        parse_matches(r, unary_at(s@, *old(pos) as nat, depth as nat, stop), s@, *old(pos) as nat, *final(pos) as nat),
        r is Ok && starts_atom(s@, *old(pos) as nat) ==> *final(pos) > *old(pos),
    decreases MAX_ANSWER_AST_SIZE - depth, s@.len() - *old(pos), 4nat,
{
    let n = s.len();
    let c = peek(s, *pos);
    if is_minus_exec(c) {
        *pos = *pos + 1;
        if depth >= MAX_ANSWER_AST_SIZE {
            return Err(());
        }
        let v = match parse_unary(s, pos, depth + 1, stop) {
            Ok(v) => v,
            Err(()) => return Err(()),
        };
        return Ok(AnswerNode::Negative(Box::new(v)));
    }
    match after_pm_exec(s, *pos) {
        Some(q) => {
            *pos = q;
            if depth >= MAX_ANSWER_AST_SIZE {
                return Err(());
            }
            let v = match parse_unary(s, pos, depth + 1, stop) {
                Ok(v) => v,
                Err(()) => return Err(()),
            };
            return Ok(AnswerNode::PlusMinus(Box::new(v)));
        },
        None => {},
    }
    if at_stop_exec(s, *pos, stop) || c == Some(',') {
        proof {
            if starts_at(s@, *pos as nat, frac_cmd()) {
                lemma_starts_at(s@, *pos as nat, frac_cmd());
            }
            if starts_at(s@, *pos as nat, sqrt_cmd()) {
                lemma_starts_at(s@, *pos as nat, sqrt_cmd());
            }
            if starts_at(s@, *pos as nat, placeholder_cmd()) {
                lemma_starts_at(s@, *pos as nat, placeholder_cmd());
            }
        }
        return Ok(AnswerNode::Empty);
    }
    parse_atom(s, pos, depth, stop)
}

fn parse_atom(s: &Vec<char>, pos: &mut usize, depth: usize, stop: Option<char>) -> (r: Result<AnswerNode, ()>)
    requires
        valid_stop(stop),
        *old(pos) <= s@.len(),
        depth <= MAX_ANSWER_AST_SIZE,
    ensures
        *final(pos) <= s@.len(),
        parse_matches(r, atom_at(s@, *old(pos) as nat, depth as nat, stop), s@, *old(pos) as nat, *final(pos) as nat),
        r is Ok && starts_atom(s@, *old(pos) as nat) ==> *final(pos) > *old(pos),
    decreases MAX_ANSWER_AST_SIZE - depth, s@.len() - *old(pos), 3nat,
{
    let n = s.len();
    if starts_with_text(s, *pos, &frac_text()) {
        return parse_fraction(s, pos, depth);
    }
    if starts_with_text(s, *pos, &sqrt_text()) {
        return parse_root(s, pos, depth);
    }
    if starts_with_text(s, *pos, &placeholder_text()) {
        return parse_placeholder(s, pos, depth);
    }
    if peek(s, *pos) == Some('{') {
        return parse_group(s, pos, depth);
    }
    if peek(s, *pos) == Some('(') {
        *pos = *pos + 1;
        if depth >= MAX_ANSWER_AST_SIZE {
            return Err(());
        }
        let value = match parse_expression(s, pos, depth + 1, Some(')')) {
            Ok(v) => v,
            Err(()) => return Err(()),
        };
        if peek(s, *pos) != Some(')') {
            return Err(());
        }
        *pos = *pos + 1;
        return Ok(value);
    }
    if at_stop_exec(s, *pos, stop) {
        return Ok(AnswerNode::Empty);
    }
    parse_number(s, pos)
}

fn parse_fraction(s: &Vec<char>, pos: &mut usize, depth: usize) -> (r: Result<AnswerNode, ()>)
    requires
        *old(pos) <= s@.len(),
        depth <= MAX_ANSWER_AST_SIZE,
    ensures
        *final(pos) <= s@.len(),
        parse_matches(r, fraction_at(s@, *old(pos) as nat, depth as nat), s@, *old(pos) as nat, *final(pos) as nat),
        r is Ok ==> *final(pos) > *old(pos),
    decreases MAX_ANSWER_AST_SIZE - depth, s@.len() - *old(pos), 2nat,
{
    let n = s.len();
    if !starts_with_text(s, *pos, &frac_text()) {
        return Err(());
    }
    *pos = *pos + 5;
    let numerator = match parse_required_argument(s, pos, depth) {
        Ok(v) => v,
        Err(()) => return Err(()),
    };
    let denominator = match parse_required_argument(s, pos, depth) {
        Ok(v) => v,
        Err(()) => return Err(()),
    };
    Ok(AnswerNode::Fraction { numerator: Box::new(numerator), denominator: Box::new(denominator) })
}

fn parse_root(s: &Vec<char>, pos: &mut usize, depth: usize) -> (r: Result<AnswerNode, ()>)
    requires
        *old(pos) <= s@.len(),
        depth <= MAX_ANSWER_AST_SIZE,
    ensures
        *final(pos) <= s@.len(),
        parse_matches(r, root_at(s@, *old(pos) as nat, depth as nat), s@, *old(pos) as nat, *final(pos) as nat),
        r is Ok ==> *final(pos) > *old(pos),
    decreases MAX_ANSWER_AST_SIZE - depth, s@.len() - *old(pos), 2nat,
{
    let n = s.len();
    if !starts_with_text(s, *pos, &sqrt_text()) {
        return Err(());
    }
    *pos = *pos + 5;
    let index = if peek(s, *pos) == Some('[') {
        *pos = *pos + 1;
        if depth >= MAX_ANSWER_AST_SIZE {
            return Err(());
        }
        let value = match parse_expression(s, pos, depth + 1, Some(']')) {
            Ok(v) => v,
            Err(()) => return Err(()),
        };
        if peek(s, *pos) != Some(']') {
            return Err(());
        }
        *pos = *pos + 1;
        if value.is_empty() {
            None
        } else {
            Some(Box::new(value))
        }
    } else {
        None
    };
    let radicand = match parse_required_argument(s, pos, depth) {
        Ok(v) => v,
        Err(()) => return Err(()),
    };
    Ok(AnswerNode::Root { radicand: Box::new(radicand), index })
}

fn parse_required_argument(s: &Vec<char>, pos: &mut usize, depth: usize) -> (r: Result<AnswerNode, ()>)
    requires
        *old(pos) <= s@.len(),
        depth <= MAX_ANSWER_AST_SIZE,
    ensures
        *final(pos) <= s@.len(),
        parse_matches(r, required_argument_at(s@, *old(pos) as nat, depth as nat), s@, *old(pos) as nat, *final(pos) as nat),
    decreases MAX_ANSWER_AST_SIZE - depth, s@.len() - *old(pos), 4nat,
{
    let n = s.len();
    if peek(s, *pos) == Some('{') {
        return parse_group(s, pos, depth);
    }
    if starts_with_text(s, *pos, &frac_text()) || starts_with_text(s, *pos, &sqrt_text()) || starts_with_text(
        s,
        *pos,
        &placeholder_text(),
    ) {
        return parse_atom(s, pos, depth, None);
    }
    match peek(s, *pos) {
        Some(ch) => if is_ascii_digit_exec(ch) {
            *pos = *pos + 1;
            Ok(AnswerNode::Integer((ch as u32 - '0' as u32) as i64))
        } else {
            Err(())
        },
        None => Err(()),
    }
}

fn parse_placeholder(s: &Vec<char>, pos: &mut usize, depth: usize) -> (r: Result<AnswerNode, ()>)
    requires
        *old(pos) <= s@.len(),
        depth <= MAX_ANSWER_AST_SIZE,
    ensures
        *final(pos) <= s@.len(),
        parse_matches(r, placeholder_at(s@, *old(pos) as nat, depth as nat), s@, *old(pos) as nat, *final(pos) as nat),
        r is Ok ==> *final(pos) > *old(pos),
    decreases MAX_ANSWER_AST_SIZE - depth, s@.len() - *old(pos), 2nat,
{
    let p0 = *pos;
    let n = s.len();
    if !starts_with_text(s, *pos, &placeholder_text()) {
        return Err(());
    }
    *pos = *pos + 12;
    if peek(s, *pos) == Some('[') {
        *pos = *pos + 1;
        loop
            invariant_except_break
                p0 + 13 <= *pos <= s@.len(),
                p0 == *old(pos),
                n == s@.len(),
                after_closing_bracket(s@, (p0 + 13) as nat) is None ==> placeholder_at(s@, p0 as nat, depth as nat) is None,
                after_closing_bracket(s@, (p0 + 13) as nat) == after_closing_bracket(s@, *pos as nat),
            ensures
                p0 + 13 <= *pos <= s@.len(),
                after_closing_bracket(s@, (p0 + 13) as nat) == Some(*pos as nat),
            decreases s@.len() - *pos,
        {
            match peek(s, *pos) {
                None => return Err(()),
                Some(ch) => {
                    *pos = *pos + 1;
                    if ch == ']' {
                        break;
                    }
                },
            }
        }
    }
    parse_group(s, pos, depth)
}

fn parse_group(s: &Vec<char>, pos: &mut usize, depth: usize) -> (r: Result<AnswerNode, ()>)
    requires
        *old(pos) <= s@.len(),
        depth <= MAX_ANSWER_AST_SIZE,
    ensures
        *final(pos) <= s@.len(),
        parse_matches(r, group_at(s@, *old(pos) as nat, depth as nat), s@, *old(pos) as nat, *final(pos) as nat),
        r is Ok ==> *final(pos) > *old(pos),
    decreases MAX_ANSWER_AST_SIZE - depth, s@.len() - *old(pos), 1nat,
{
    let n = s.len();
    if peek(s, *pos) != Some('{') {
        return Err(());
    }
    *pos = *pos + 1;
    if depth >= MAX_ANSWER_AST_SIZE {
        return Err(());
    }
    let value = match parse_expression(s, pos, depth + 1, Some('}')) {
        Ok(v) => v,
        Err(()) => return Err(()),
    };
    if peek(s, *pos) != Some('}') {
        return Err(());
    }
    *pos = *pos + 1;
    Ok(value)
}

/// The value of a run of digits when it fits in `i64`.
fn digits_to_i64(ds: &Vec<char>) -> (r: Option<i64>)
    requires
        forall|j: int| 0 <= j < ds@.len() ==> is_ascii_digit(#[trigger] ds@[j]),
    ensures
        match r {
            Some(v) => digits_value(ds@) <= i64::MAX && v == digits_value(ds@),
            None => digits_value(ds@) > i64::MAX,
        },
{
    let mut value: u128 = 0;
    let mut i: usize = 0;
    while i < ds.len()
        invariant
            i <= ds@.len(),
            forall|j: int| 0 <= j < ds@.len() ==> is_ascii_digit(#[trigger] ds@[j]),
            value == digits_value(ds@.take(i as int)),
            value <= i64::MAX,
        decreases ds@.len() - i,
    {
        proof {
            assert(ds@.take(i + 1).drop_last() =~= ds@.take(i as int));
        }
        let digit = (ds[i] as u32 - '0' as u32) as u128;
        value = value * 10 + digit;
        if value > i64::MAX as u128 {
            proof {
                lemma_digits_value_prefix(ds@, i + 1);
            }
            return None;
        }
        i += 1;
    }
    proof {
        assert(ds@.take(ds@.len() as int) =~= ds@);
    }
    Some(value as i64)
}

fn parse_number(s: &Vec<char>, pos: &mut usize) -> (r: Result<AnswerNode, ()>)
    requires
        *old(pos) <= s@.len(),
    ensures
        *final(pos) <= s@.len(),
        parse_matches(r, number_at(s@, *old(pos) as nat), s@, *old(pos) as nat, *final(pos) as nat),
        r is Ok ==> *final(pos) > *old(pos),
{
    let start = *pos;
    let mut dot: Option<usize> = None;
    while *pos < s.len()
        invariant_except_break
            start <= *pos <= s@.len(),
            number_end(s@, start as nat, None) == number_end(
                s@,
                *pos as nat,
                match dot {
                    Some(k) => Some(k as nat),
                    None => None,
                },
            ),
            forall|j: int| start <= j < *pos && (dot is None || j != dot.unwrap()) ==> is_ascii_digit(#[trigger] s@[j]),
            match dot {
                Some(k) => start <= k < *pos && s@[k as int] == '.',
                None => true,
            },
        ensures
            start <= *pos <= s@.len(),
            number_end(s@, start as nat, None) == (
                *pos as nat,
                match dot {
                    Some(k) => Some(k as nat),
                    None => None,
                },
            ),
            forall|j: int| start <= j < *pos && (dot is None || j != dot.unwrap()) ==> is_ascii_digit(#[trigger] s@[j]),
            match dot {
                Some(k) => start <= k < *pos && s@[k as int] == '.',
                None => true,
            },
        decreases s@.len() - *pos,
    {
        let ch = s[*pos];
        if is_ascii_digit_exec(ch) {
            *pos = *pos + 1;
        } else if ch == '.' && dot.is_none() {
            dot = Some(*pos);
            *pos = *pos + 1;
        } else {
            break;
        }
    }
    let end = *pos;
    if end == start {
        return Err(());
    }
    match dot {
        Some(k) => {
            let mut digits: Vec<char> = Vec::new();
            if k == start {
                digits.push('0');
            }
            let ghost lead = digits@;
            let mut i: usize = start;
            while i < k
                invariant
                    start <= i <= k < end <= s@.len(),
                    digits@ == lead + s@.subrange(start as int, i as int),
                decreases k - i,
            {
                digits.push(s[i]);
                i += 1;
            }
            let ghost mid = digits@;
            let mut j: usize = k + 1;
            while j < end
                invariant
                    start <= k < end <= s@.len(),
                    k + 1 <= j <= end,
                    digits@ == mid + s@.subrange(k + 1, j as int),
                decreases end - j,
            {
                digits.push(s[j]);
                j += 1;
            }
            let ghost whole = s@.subrange(start as int, k as int);
            let ghost fraction = s@.subrange(k + 1, end as int);
            assert(digits@ =~= (if whole.len() == 0 {
                seq!['0'] + fraction
            } else {
                whole + fraction
            }));
            assert forall|x: int| 0 <= x < digits@.len() implies is_ascii_digit(#[trigger] digits@[x]) by {
                if k == start {
                    if x > 0 {
                        assert(digits@[x] == s@[k + x]);
                    }
                } else if x < k - start {
                    assert(digits@[x] == s@[start + x]);
                } else {
                    assert(digits@[x] == s@[start + x + 1]);
                }
            }
            let coefficient = match digits_to_i64(&digits) {
                Some(v) => v,
                None => return Err(()),
            };
            let scale_len = end - k - 1;
            if scale_len > u32::MAX as usize {
                return Err(());
            }
            Ok(AnswerNode::ExactDecimal { coefficient, scale: scale_len as u32 })
        },
        None => {
            let mut digits: Vec<char> = Vec::new();
            let mut i: usize = start;
            while i < end
                invariant
                    start <= i <= end <= s@.len(),
                    digits@ == s@.subrange(start as int, i as int),
                decreases end - i,
            {
                digits.push(s[i]);
                i += 1;
            }
            assert forall|x: int| 0 <= x < digits@.len() implies is_ascii_digit(#[trigger] digits@[x]) by {
                assert(digits@[x] == s@[start + x]);
            }
            let value = match digits_to_i64(&digits) {
                Some(v) => v,
                None => return Err(()),
            };
            Ok(AnswerNode::Integer(value))
        },
    }
}

} // verus!
