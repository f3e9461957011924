//! A small deterministic generator (SplitMix64), so that one seed gives the
//! same problems on every platform.

use vstd::prelude::*;
use vstd::string::StrSliceExecFns;
use vstd::utf8::encode_utf8;
use vstd::wrapping::u64_specs;
use crate::text::{chars_of, is_white_space, is_white_space_exec};

verus! {

/// The SplitMix64 increment (the golden ratio in 64-bit fixed point).
pub const SPLITMIX_INCREMENT: u64 = 0x9E37_79B9_7F4A_7C15;

/// The state that follows `state`.
pub open spec fn splitmix_step(state: u64) -> u64 {
    u64_specs::wrapping_add(state, SPLITMIX_INCREMENT)
}

/// The output that SplitMix64 mixes out of a state.
pub open spec fn splitmix_output(state: u64) -> u64 {
    let z1 = u64_specs::wrapping_mul(state ^ (state >> 30u64), 0xBF58_476D_1CE4_E5B9u64);
    let z2 = u64_specs::wrapping_mul(z1 ^ (z1 >> 27u64), 0x94D0_49BB_1331_11EBu64);
    z2 ^ (z2 >> 31u64)
}

/// Draws past which a bounded draw keeps the value it has. SplitMix64 visits
/// every state once per period of 2^64, and its output mixes states one to
/// one, so fewer than `upper` draws in a row can be rejected: the limit is
/// never reached.
pub const MAX_REJECTED_DRAWS: u64 = 0xFFFF_FFFF_FFFF_FFFF;

/// The largest multiple of `upper` that a 64-bit draw can reach: draws
/// below it are accepted, so that every residue is equally likely.
pub open spec fn acceptance_zone(upper: u64) -> u64 {
    (u64::MAX - u64::MAX % upper) as u64
}

/// A draw in `[0, upper)` from `state`: the value and the state after it.
pub open spec fn bounded_draw(state: u64, upper: u64, budget: nat) -> (u64, u64)
    decreases budget,
{
    let next = splitmix_step(state);
    let value = splitmix_output(next);
    if value < acceptance_zone(upper) || budget == 0 {
        ((value % upper) as u64, next)
    } else {
        bounded_draw(next, upper, (budget - 1) as nat)
    }
}

/// A bounded draw lies below its bound.
pub proof fn lemma_bounded_draw_below(state: u64, upper: u64, budget: nat)
    requires
        upper > 0,
    ensures
        bounded_draw(state, upper, budget).0 < upper,
    decreases budget,
{
    let next = splitmix_step(state);
    let value = splitmix_output(next);
    if !(value < acceptance_zone(upper) || budget == 0) {
        lemma_bounded_draw_below(next, upper, (budget - 1) as nat);
    }
}

/// A deterministic random number generator.
#[derive(Clone, Debug)]
pub struct DeterministicRng {
    state: u64,
}

impl View for DeterministicRng {
    type V = u64;

    closed spec fn view(&self) -> u64 {
        self.state
    }
}

impl DeterministicRng {
    /// A generator seeded from a string (see `seed_to_u64`).
    pub fn from_seed(seed: &str) -> (r: Self)
        ensures
            r@ == seed_value(seed@),
    {
        Self { state: seed_to_u64(seed) }
    }

    /// The next 64 random bits.
    pub fn next_u64(&mut self) -> (r: u64)
        ensures
            final(self)@ == splitmix_step(old(self)@),
            r == splitmix_output(final(self)@),
    {
        self.state = self.state.wrapping_add(SPLITMIX_INCREMENT);
        let mut z = self.state;
        z = (z ^ (z >> 30)).wrapping_mul(0xBF58_476D_1CE4_E5B9);
        z = (z ^ (z >> 27)).wrapping_mul(0x94D0_49BB_1331_11EB);
        z ^ (z >> 31)
    }

    /// A draw in `[0, upper)`, rejecting the top partial range that would
    /// make small residues more likely.
    pub fn next_bounded(&mut self, upper: u64) -> (r: u64)
        requires
            upper > 0,
        ensures
            (r, final(self)@) == bounded_draw(old(self)@, upper, MAX_REJECTED_DRAWS as nat),
            r < upper,
    {
        let zone = u64::MAX - (u64::MAX % upper);
        let mut budget: u64 = MAX_REJECTED_DRAWS;
        loop
            invariant
                upper > 0,
                zone == acceptance_zone(upper),
                bounded_draw(old(self)@, upper, MAX_REJECTED_DRAWS as nat) == bounded_draw(
                    self@,
                    upper,
                    budget as nat,
                ),
            decreases budget,
        {
            let value = self.next_u64();
            if value < zone || budget == 0 {
                return value % upper;
            }
            budget = budget - 1;
        }
    }

    /// A pair of digits from one to nine, all 81 pairs equally likely.
    pub fn next_ordered_pair(&mut self) -> (r: (u8, u8))
        ensures
            ({
                let (pair, next) = bounded_draw(old(self)@, 81, MAX_REJECTED_DRAWS as nat);
                &&& final(self)@ == next
                &&& r.0 == pair / 9 + 1
                &&& r.1 == pair % 9 + 1
            }),
            1 <= r.0 <= 9,
            1 <= r.1 <= 9,
    {
        let pair = self.next_bounded(81);
        ((pair / 9 + 1) as u8, (pair % 9 + 1) as u8)
    }
}

/// `s` without its leading and trailing white space.
pub open spec fn trimmed(s: Seq<char>) -> Seq<char>
    decreases s.len(),
{
    if s.len() > 0 && is_white_space(s[0]) {
        trimmed(s.drop_first())
    } else if s.len() > 0 && is_white_space(s.last()) {
        trimmed(s.drop_last())
    } else {
        s
    }
}

/// The value of a digit in base `radix` (10 or 16).
pub open spec fn radix_digit(c: char, radix: nat) -> Option<nat> {
    if '0' <= c && c <= '9' {
        Some((c as nat - '0' as nat) as nat)
    } else if radix == 16 && 'a' <= c && c <= 'f' {
        Some((c as nat - 'a' as nat + 10) as nat)
    } else if radix == 16 && 'A' <= c && c <= 'F' {
        Some((c as nat - 'A' as nat + 10) as nat)
    } else {
        None
    }
}

/// The value of a run of digits in base `radix`, if every item is one.
pub open spec fn radix_value(ds: Seq<char>, radix: nat) -> Option<nat>
    decreases ds.len(),
{
    if ds.len() == 0 {
        Some(0)
    } else {
        match (radix_value(ds.drop_last(), radix), radix_digit(ds.last(), radix)) {
            (Some(v), Some(d)) => Some(v * radix + d),
            _ => None,
        }
    }
}

/// An unsigned 64-bit number written in base `radix`: an optional `+`, then
/// at least one digit, with a value that fits.
pub open spec fn parse_unsigned(s: Seq<char>, radix: nat) -> Option<u64> {
    let ds = if s.len() > 0 && s[0] == '+' { s.drop_first() } else { s };
    if ds.len() == 0 {
        None
    } else {
        match radix_value(ds, radix) {
            Some(v) => if v <= u64::MAX { Some(v as u64) } else { None },
            None => None,
        }
    }
}

/// The 64-bit FNV-1a hash of a byte sequence.
pub open spec fn fnv1a(bytes: Seq<u8>) -> u64
    decreases bytes.len(),
{
    if bytes.len() == 0 {
        0xcbf2_9ce4_8422_2325u64
    } else {
        u64_specs::wrapping_mul(fnv1a(bytes.drop_last()) ^ (bytes.last() as u64), 0x1000_0000_01b3u64)
    }
}

/// The number a seed stands for: a hexadecimal number after `0x` or `0X`,
/// else a decimal number, both after trimming white space; else the FNV-1a
/// hash of the seed's UTF-8 bytes.
pub open spec fn seed_value(seed: Seq<char>) -> u64 {
    let t = trimmed(seed);
    let hex = if t.len() >= 2 && t[0] == '0' && (t[1] == 'x' || t[1] == 'X') {
        parse_unsigned(t.subrange(2, t.len() as int), 16)
    } else {
        None
    };
    match hex {
        Some(v) => v,
        None => match parse_unsigned(t, 10) {
            Some(v) => v,
            None => fnv1a(encode_utf8(seed)),
        },
    }
}

fn trim_chars(s: &Vec<char>) -> (r: Vec<char>)
    ensures
        r@ == trimmed(s@),
{
    let mut start: usize = 0;
    let mut end: usize = s.len();
    proof {
        assert(s@.subrange(0, s@.len() as int) =~= s@);
    }
    while start < end && is_white_space_exec(s[start])
        invariant
            start <= end <= s@.len(),
            end == s@.len(),
            trimmed(s@) == trimmed(s@.subrange(start as int, end as int)),
        decreases end - start,
    {
        proof {
            assert(s@.subrange(start as int, end as int).drop_first() =~= s@.subrange(start + 1, end as int));
        }
        start += 1;
    }
    while start < end && is_white_space_exec(s[end - 1])
        invariant
            start <= end <= s@.len(),
            start == end || !is_white_space(s@[start as int]),
            trimmed(s@) == trimmed(s@.subrange(start as int, end as int)),
        decreases end - start,
    {
        proof {
            let sub = s@.subrange(start as int, end as int);
            assert(sub.drop_last() =~= s@.subrange(start as int, end - 1));
        }
        end -= 1;
    }
    let mut out: Vec<char> = Vec::new();
    let mut k = start;
    while k < end
        invariant
            start <= k <= end <= s@.len(),
            out@ == s@.subrange(start as int, k as int),
        decreases end - k,
    {
        out.push(s[k]);
        proof {
            assert(out@ =~= s@.subrange(start as int, k + 1));
        }
        k += 1;
    }
    proof {
        let sub = s@.subrange(start as int, end as int);
        assert(trimmed(sub) == sub);
    }
    out
}

fn radix_digit_exec(c: char, radix: u32) -> (r: Option<u64>)
    requires
        radix == 10 || radix == 16,
    ensures
        match r {
            Some(d) => radix_digit(c, radix as nat) == Some(d as nat) && d < radix,
            None => radix_digit(c, radix as nat) is None,
        },
{
    if '0' <= c && c <= '9' {
        Some(c as u64 - '0' as u64)
    } else if radix == 16 && 'a' <= c && c <= 'f' {
        Some(c as u64 - 'a' as u64 + 10)
    } else if radix == 16 && 'A' <= c && c <= 'F' {
        Some(c as u64 - 'A' as u64 + 10)
    } else {
        None
    }
}

proof fn lemma_radix_value_prefix(ds: Seq<char>, k: int, radix: nat)
    requires
        0 <= k < ds.len(),
    ensures
        ds.subrange(0, k + 1).drop_last() == ds.subrange(0, k),
        ds.subrange(0, k + 1).last() == ds[k],
{
    assert(ds.subrange(0, k + 1).drop_last() =~= ds.subrange(0, k));
}

proof fn lemma_radix_value_grows(ds: Seq<char>, k: int, radix: nat)
    requires
        0 <= k <= ds.len(),
        radix >= 2,
        radix_value(ds.subrange(0, k), radix) matches Some(v) && v > u64::MAX,
    ensures
        radix_value(ds, radix) matches Some(w) ==> w > u64::MAX,
    decreases ds.len() - k,
{
    if k < ds.len() {
        lemma_radix_value_prefix(ds, k, radix);
        let v = radix_value(ds.subrange(0, k), radix)->0;
        if let Some(d) = radix_digit(ds[k], radix) {
            assert(v * radix + d >= v) by (nonlinear_arith)
                requires
                    radix >= 2,
                    v >= 0,
                    d >= 0,
            ;
            lemma_radix_value_grows(ds, k + 1, radix);
        } else {
            lemma_radix_value_none(ds, k + 1, radix);
        }
    } else {
        assert(ds.subrange(0, k) =~= ds);
    }
}

/// `parse_unsigned` of the characters `s[from..]`.
fn parse_unsigned_exec(s: &Vec<char>, from: usize, radix: u32) -> (r: Option<u64>)
    requires
        from <= s@.len(),
        radix == 10 || radix == 16,
    ensures
        r == parse_unsigned(s@.subrange(from as int, s@.len() as int), radix as nat),
{
    let ghost whole = s@.subrange(from as int, s@.len() as int);
    let mut i = from;
    if i < s.len() && s[i] == '+' {
        i += 1;
    }
    let ghost ds = s@.subrange(i as int, s@.len() as int);
    proof {
        if whole.len() > 0 && whole[0] == '+' {
            assert(whole.drop_first() =~= ds);
        } else {
            assert(whole =~= ds);
        }
    }
    if i == s.len() {
        return None;
    }
    let start = i;
    let mut value: u64 = 0;
    proof {
        assert(ds.subrange(0, 0) =~= Seq::<char>::empty());
    }
    while i < s.len()
        invariant
            from <= start <= i <= s@.len(),
            start < s@.len(),
            radix == 10 || radix == 16,
            ds == s@.subrange(start as int, s@.len() as int),
            ds.len() > 0,
            whole == s@.subrange(from as int, s@.len() as int),
            parse_unsigned(whole, radix as nat) == (match radix_value(ds, radix as nat) {
                Some(v) => if v <= u64::MAX { Some(v as u64) } else { None },
                None => None,
            }),
            radix_value(ds.subrange(0, i - start), radix as nat) == Some(value as nat),
        decreases s@.len() - i,
    {
        proof {
            lemma_radix_value_prefix(ds, i - start, radix as nat);
            assert(ds[i - start] == s@[i as int]);
        }
        let d = match radix_digit_exec(s[i], radix) {
            Some(d) => d,
            None => {
                proof {
                    assert(radix_value(ds.subrange(0, i - start + 1), radix as nat) is None);
                    lemma_radix_value_none(ds, i - start + 1, radix as nat);
                }
                return None;
            },
        };
        let next = match value.checked_mul(radix as u64) {
            Some(m) => m.checked_add(d),
            None => None,
        };
        match next {
            Some(n) => {
                value = n;
            },
            None => {
                proof {
                    lemma_radix_value_grows(ds, i - start + 1, radix as nat);
                    lemma_radix_value_none_or(ds, i - start + 1, radix as nat);
                }
                return None;
            },
        }
        i += 1;
    }
    proof {
        assert(ds.subrange(0, i - start) =~= ds);
    }
    Some(value)
}

proof fn lemma_radix_value_none(ds: Seq<char>, k: int, radix: nat)
    requires
        0 <= k <= ds.len(),
        radix_value(ds.subrange(0, k), radix) is None,
    ensures
        radix_value(ds, radix) is None,
    decreases ds.len() - k,
{
    if k < ds.len() {
        lemma_radix_value_prefix(ds, k, radix);
        lemma_radix_value_none(ds, k + 1, radix);
    } else {
        assert(ds.subrange(0, k) =~= ds);
    }
}

proof fn lemma_radix_value_none_or(ds: Seq<char>, k: int, radix: nat)
    requires
        0 <= k <= ds.len(),
        radix >= 2,
    ensures
        radix_value(ds.subrange(0, k), radix) is None ==> radix_value(ds, radix) is None,
{
    if radix_value(ds.subrange(0, k), radix) is None {
        lemma_radix_value_none(ds, k, radix);
    }
}

fn fnv1a_exec(bytes: &Vec<u8>) -> (r: u64)
    ensures
        r == fnv1a(bytes@),
{
    let mut hash: u64 = 0xcbf2_9ce4_8422_2325;
    let mut i: usize = 0;
    while i < bytes.len()
        invariant
            i <= bytes@.len(),
            hash == fnv1a(bytes@.subrange(0, i as int)),
        decreases bytes@.len() - i,
    {
        proof {
            let next = bytes@.subrange(0, i + 1);
            assert(next.drop_last() =~= bytes@.subrange(0, i as int));
        }
        hash = hash ^ (bytes[i] as u64);
        hash = hash.wrapping_mul(0x1000_0000_01b3);
        i += 1;
    }
    proof {
        assert(bytes@.subrange(0, i as int) =~= bytes@);
    }
    hash
}

/// The number a seed stands for: `seed_value`.
pub fn seed_to_u64(seed: &str) -> (r: u64)
    ensures
        r == seed_value(seed@),
{
    let chars = chars_of(seed);
    let t = trim_chars(&chars);
    if t.len() >= 2 && t[0] == '0' && (t[1] == 'x' || t[1] == 'X') {
        match parse_unsigned_exec(&t, 2, 16) {
            Some(v) => return v,
            None => {},
        }
    }
    proof {
        assert(t@.subrange(0, t@.len() as int) =~= t@);
    }
    match parse_unsigned_exec(&t, 0, 10) {
        Some(v) => v,
        None => fnv1a_exec(&seed.as_bytes_vec()),
    }
}

} // verus!
