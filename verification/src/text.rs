//! Character-level text helpers shared by the parsers and formatters.

use vstd::prelude::*;

verus! {

/// The characters of a string slice, in order.
pub fn chars_of(s: &str) -> (r: Vec<char>)
    ensures
        r@ == s@,
{
    broadcast use vstd::string::axiom_spec_iter;

    let mut out: Vec<char> = Vec::new();
    for c in it: s.chars()
        invariant
            out@ == it.seq().take(it.index() as int),
            it.seq() == s@,
    {
        out.push(c);
    }
    out
}

/// Builds an owned string from a character sequence.
/// Trusted: `String::from_iter` over a slice iterator of `char` yields exactly
/// those characters in order.
#[verifier::external_body]
pub fn string_from_chars(chars: &[char]) -> (s: String)
    ensures
        s@ == chars@,
{
    String::from_iter(chars.iter())
}

/// Characters of `s` in order, compared lexicographically by code point, as
/// Rust's `Ord` on strings does (UTF-8 byte order preserves code point order).
pub open spec fn chars_order(a: Seq<char>, b: Seq<char>, i: nat) -> int
    decreases a.len() - i,
{
    if i >= a.len() || i >= b.len() {
        if a.len() < b.len() {
            -1
        } else if a.len() > b.len() {
            1
        } else {
            0
        }
    } else if (a[i as int] as u32) < (b[i as int] as u32) {
        -1
    } else if (a[i as int] as u32) > (b[i as int] as u32) {
        1
    } else {
        chars_order(a, b, i + 1)
    }
}

pub fn compare_chars(a: &Vec<char>, b: &Vec<char>) -> (r: i8)
    ensures
        r == chars_order(a@, b@, 0),
{
    let mut i: usize = 0;
    while i < a.len() && i < b.len()
        invariant
            i <= a.len(),
            i <= b.len(),
            chars_order(a@, b@, 0) == chars_order(a@, b@, i as nat),
        decreases a.len() - i,
    {
        let x = a[i] as u32;
        let y = b[i] as u32;
        if x < y {
            return -1;
        }
        if x > y {
            return 1;
        }
        i += 1;
    }
    if a.len() < b.len() {
        -1
    } else if a.len() > b.len() {
        1
    } else {
        0
    }
}

/// Lexicographic comparison of two strings by code point.
pub fn compare_strings(a: &String, b: &String) -> (r: i8)
    ensures
        r == chars_order(a@, b@, 0),
{
    let x = chars_of(a.as_str());
    let y = chars_of(b.as_str());
    compare_chars(&x, &y)
}

/// Decimal digits of an unsigned integer (at least one).
pub open spec fn digit_count(v: nat) -> nat
    decreases v,
{
    if v < 10 {
        1
    } else {
        1 + digit_count(v / 10)
    }
}

pub fn decimal_digit_count(value: u64) -> (r: usize)
    ensures
        r == digit_count(value as nat),
        1 <= r <= 20,
{
    proof {
        lemma_digit_count_bound(value as nat);
    }
    let mut v = value;
    let mut digits: usize = 1;
    while v >= 10
        invariant
            digits + digit_count(v as nat) == digit_count(value as nat) + 1,
            digit_count(value as nat) <= 20,
            digits >= 1,
        decreases v,
    {
        proof {
            lemma_digit_count_bound((v / 10) as nat);
        }
        v = v / 10;
        digits += 1;
    }
    digits
}

pub proof fn lemma_digit_count_bound(v: nat)
    ensures
        digit_count(v) >= 1,
        v <= u64::MAX ==> digit_count(v) <= 20,
{
    lemma_digit_count_pow(v, 20);
    crate::exact::lemma_pow10_20();
}

pub proof fn lemma_digit_count_pow(v: nat, k: nat)
    ensures
        digit_count(v) >= 1,
        k >= 1 && v < crate::exact::pow10(k) ==> digit_count(v) <= k,
    decreases v,
{
    if v >= 10 {
        if k >= 1 {
            crate::exact::lemma_pow10_step((k - 1) as nat);
        }
        lemma_digit_count_pow(v / 10, (k - 1) as nat);
        if k == 1 {
            vstd::arithmetic::power::lemma_pow1(10);
        }
    }
}

/// Decimal spelling of an unsigned integer, most significant digit first.
pub open spec fn decimal_chars(v: nat) -> Seq<char>
    decreases v,
{
    if v < 10 {
        seq![digit_char(v)]
    } else {
        decimal_chars(v / 10).push(digit_char(v % 10))
    }
}

pub open spec fn digit_char(d: nat) -> char {
    if d == 0 { '0' }
    else if d == 1 { '1' }
    else if d == 2 { '2' }
    else if d == 3 { '3' }
    else if d == 4 { '4' }
    else if d == 5 { '5' }
    else if d == 6 { '6' }
    else if d == 7 { '7' }
    else if d == 8 { '8' }
    else { '9' }
}

pub fn digit_to_char(d: u64) -> (c: char)
    requires
        d < 10,
    ensures
        c == digit_char(d as nat),
{
    if d == 0 { '0' }
    else if d == 1 { '1' }
    else if d == 2 { '2' }
    else if d == 3 { '3' }
    else if d == 4 { '4' }
    else if d == 5 { '5' }
    else if d == 6 { '6' }
    else if d == 7 { '7' }
    else if d == 8 { '8' }
    else { '9' }
}

/// Appends the decimal spelling of `value` to `out`.
pub fn push_decimal(out: &mut Vec<char>, value: u64)
    ensures
        final(out)@ == old(out)@ + decimal_chars(value as nat),
    decreases value,
{
    if value < 10 {
        out.push(digit_to_char(value));
    } else {
        push_decimal(out, value / 10);
        out.push(digit_to_char(value % 10));
    }
}


pub open spec fn is_ascii_digit(c: char) -> bool {
    '0' <= c && c <= '9'
}

/// The value of a run of ASCII digits.
pub open spec fn digits_value(ds: Seq<char>) -> nat
    decreases ds.len(),
{
    if ds.len() == 0 {
        0
    } else {
        digits_value(ds.drop_last()) * 10 + (ds.last() as nat - '0' as nat) as nat
    }
}

pub proof fn lemma_digits_value_prefix(ds: Seq<char>, k: int)
    requires
        0 <= k <= ds.len(),
        forall|j: int| 0 <= j < ds.len() ==> is_ascii_digit(#[trigger] ds[j]),
    ensures
        digits_value(ds.take(k)) <= digits_value(ds),
    decreases ds.len(),
{
    if k < ds.len() {
        assert(ds.drop_last().take(k) =~= ds.take(k));
        lemma_digits_value_prefix(ds.drop_last(), k);
    } else {
        assert(ds.take(k) =~= ds);
    }
}

/// Unicode `White_Space`, as `char::is_whitespace` documents it.
pub open spec fn is_white_space(c: char) -> bool {
    ('\u{9}' <= c && c <= '\u{d}') || c == ' ' || c == '\u{85}' || c == '\u{a0}' || c == '\u{1680}' || (
    '\u{2000}' <= c && c <= '\u{200a}') || c == '\u{2028}' || c == '\u{2029}' || c == '\u{202f}' || c
        == '\u{205f}' || c == '\u{3000}'
}

pub fn is_white_space_exec(c: char) -> (r: bool)
    ensures
        r == is_white_space(c),
{
    ('\u{9}' <= c && c <= '\u{d}') || c == ' ' || c == '\u{85}' || c == '\u{a0}' || c == '\u{1680}' || (
    '\u{2000}' <= c && c <= '\u{200a}') || c == '\u{2028}' || c == '\u{2029}' || c == '\u{202f}' || c
        == '\u{205f}' || c == '\u{3000}'
}

} // verus!
