//! Problem-set identity: schema version, theme, generator revision, seed and
//! difficulty, with its textual `a-b-c-seed-d` spelling.

use vstd::prelude::*;
use crate::schema::SCHEMA_VERSION;
use crate::text::{chars_of, decimal_chars, digit_char, digits_value, is_ascii_digit, lemma_digits_value_prefix, push_decimal, string_from_chars};
use vstd::string::StringSliceAdditionalSpecFns;
use vstd::utf8::{
    char_u32_cast, encode_scalar, encode_utf8, has_width_1_encoding, is_ascii_chars, is_ascii_chars_encode_utf8,
    leading_byte_width_2, leading_byte_width_3, leading_byte_width_4,
};

verus! {

pub const MIN_DIFFICULTY: u8 = 1;
pub const MAX_DIFFICULTY: u8 = 5;
pub const MAX_SEED_LENGTH: usize = 16;

#[derive(Clone, Copy, Debug, PartialEq, Eq, PartialOrd, Ord, Hash, Structural)]
pub struct Difficulty(u8);

impl View for Difficulty {
    type V = u8;

    closed spec fn view(&self) -> u8 {
        self.0
    }
}

pub open spec fn valid_difficulty(value: u8) -> bool {
    MIN_DIFFICULTY <= value <= MAX_DIFFICULTY
}

impl Difficulty {
    #[verifier::type_invariant]
    spec fn in_range(self) -> bool {
        valid_difficulty(self.0)
    }

    pub fn value(self) -> (r: u8)
        ensures
            r == self@,
            valid_difficulty(r),
    {
        proof {
            use_type_invariant(&self);
        }
        self.0
    }

    /// The difficulty level `value`, accepted exactly on `1..=5`.
    pub fn try_from(value: u8) -> (r: Result<Self, IdentityError>)
        ensures
            valid_difficulty(value) ==> (r matches Ok(d) && d@ == value),
            !valid_difficulty(value) ==> r == Err::<Self, IdentityError>(
                IdentityError::InvalidDifficulty { value },
            ),
    {
        if MIN_DIFFICULTY <= value && value <= MAX_DIFFICULTY {
            Ok(Self(value))
        } else {
            Err(IdentityError::InvalidDifficulty { value })
        }
    }

    /// The default difficulty, 2: a worksheet requested without a
    /// difficulty is a normal one.
    pub fn default_difficulty() -> (r: Self)
        ensures
            r@ == 2,
    {
        Self(2)
    }
}

#[derive(Clone, Copy, Debug, PartialEq, Eq)]
pub enum IdentityError {
    MalformedProblemSetId,
    InvalidNumericPart { name: &'static str },
    UnsupportedSchemaVersion { received: u16, expected: u16 },
    InvalidDifficulty { value: u8 },
    InvalidSeedLength { length: usize, max: usize },
    InvalidSeedCharacter,
}

/// Seed alphabet: digits 1-9 and ASCII letters, except `I`, `l` and `O`.
pub open spec fn is_seed_byte_spec(b: u8) -> bool {
    ((49 <= b <= 57) || (97 <= b <= 122) || (65 <= b <= 90)) && b != 73 && b != 108 && b != 79
}

pub open spec fn seed_bytes_valid(bytes: Seq<u8>) -> bool {
    forall|i: int| 0 <= i < bytes.len() ==> is_seed_byte_spec(#[trigger] bytes[i])
}

pub fn is_seed_byte(value: u8) -> (r: bool)
    ensures
        r == is_seed_byte_spec(value),
{
    ((49 <= value && value <= 57) || (97 <= value && value <= 122) || (65 <= value && value <= 90))
        && value != 73 && value != 108 && value != 79
}

pub open spec fn seed_check(seed: Seq<char>) -> Result<(), IdentityError> {
    if seed.len() == 0 || encode_utf8(seed).len() > MAX_SEED_LENGTH {
        Err(
            IdentityError::InvalidSeedLength {
                length: encode_utf8(seed).len() as usize,
                max: MAX_SEED_LENGTH,
            },
        )
    } else if !seed_bytes_valid(encode_utf8(seed)) {
        Err(IdentityError::InvalidSeedCharacter)
    } else {
        Ok(())
    }
}

/// A seed is 1 to 16 bytes of the seed alphabet.
pub fn validate_seed(seed: &str) -> (r: Result<(), IdentityError>)
    ensures
        r == seed_check(seed@),
{
    let bytes = seed.as_bytes();
    if seed.is_empty() || bytes.len() > MAX_SEED_LENGTH {
        return Err(IdentityError::InvalidSeedLength { length: bytes.len(), max: MAX_SEED_LENGTH });
    }
    let mut i: usize = 0;
    while i < bytes.len()
        invariant
            i <= bytes@.len(),
            bytes@ == seed.spec_bytes(),
            bytes@.len() <= MAX_SEED_LENGTH,
            seed@.len() != 0,
            forall|j: int| 0 <= j < i ==> is_seed_byte_spec(#[trigger] bytes@[j]),
        decreases bytes@.len() - i,
    {
        if !is_seed_byte(bytes[i]) {
            proof {
                assert(!is_seed_byte_spec(bytes@[i as int]));
                assert(!seed_bytes_valid(bytes@));
            }
            return Err(IdentityError::InvalidSeedCharacter);
        }
        i += 1;
    }
    Ok(())
}

#[derive(Clone, Debug, PartialEq, Eq)]
pub struct ProblemSetIdentity {
    pub schema_version: u16,
    pub numeric_theme_id: u32,
    pub generator_revision: u32,
    pub seed: String,
    pub difficulty: Difficulty,
}

impl ProblemSetIdentity {
    /// A current-schema identity, after validating the seed.
    pub fn new(numeric_theme_id: u32, generator_revision: u32, seed: String, difficulty: Difficulty) -> (r: Result<Self, IdentityError>)
        ensures
            match seed_check(seed@) {
                Ok(_) => r matches Ok(id) && id.schema_version == SCHEMA_VERSION && id.numeric_theme_id
                    == numeric_theme_id && id.generator_revision == generator_revision && id.seed@
                    == seed@ && id.difficulty == difficulty,
                Err(e) => r == Err::<Self, IdentityError>(e),
            },
    {
        match validate_seed(seed.as_str()) {
            Ok(()) => Ok(Self {
                schema_version: SCHEMA_VERSION,
                numeric_theme_id,
                generator_revision,
                seed,
                difficulty,
            }),
            Err(e) => Err(e),
        }
    }

    pub fn schema_version(&self) -> (r: u16)
        ensures
            r == self.schema_version,
    {
        self.schema_version
    }

    pub fn numeric_theme_id(&self) -> (r: u32)
        ensures
            r == self.numeric_theme_id,
    {
        self.numeric_theme_id
    }

    pub fn generator_revision(&self) -> (r: u32)
        ensures
            r == self.generator_revision,
    {
        self.generator_revision
    }
}


/// The textual spelling `schema-theme-revision-seed-difficulty` of an
/// identity.
pub open spec fn id_text(schema_version: u16, theme: u32, revision: u32, seed: Seq<char>, difficulty: u8) -> Seq<
    char,
> {
    decimal_chars(schema_version as nat) + seq!['-'] + decimal_chars(theme as nat) + seq!['-'] + decimal_chars(
        revision as nat,
    ) + seq!['-'] + seed + seq!['-'] + decimal_chars(difficulty as nat)
}

/// The fields of `s` between dashes, left to right; there is always at
/// least one.
pub open spec fn split_dash(s: Seq<char>) -> Seq<Seq<char>>
    decreases s.len(),
{
    if s.len() == 0 {
        seq![Seq::empty()]
    } else {
        let rest = split_dash(s.drop_last());
        if s.last() == '-' {
            rest.push(Seq::empty())
        } else {
            rest.update(rest.len() - 1, rest.last().push(s.last()))
        }
    }
}

pub proof fn lemma_split_dash_nonempty(s: Seq<char>)
    ensures
        split_dash(s).len() >= 1,
    decreases s.len(),
{
    if s.len() > 0 {
        lemma_split_dash_nonempty(s.drop_last());
    }
}

pub open spec fn all_ascii_digits(s: Seq<char>) -> bool {
    forall|i: int| 0 <= i < s.len() ==> is_ascii_digit(#[trigger] s[i])
}

/// An unsigned decimal field: an optional `+`, then one or more ASCII
/// digits, as the standard integer parsers read it.
pub open spec fn unsigned_value(part: Seq<char>) -> Option<nat> {
    let body = if part.len() > 0 && part[0] == '+' {
        part.subrange(1, part.len() as int)
    } else {
        part
    };
    if body.len() > 0 && all_ascii_digits(body) {
        Some(digits_value(body))
    } else {
        None
    }
}

pub open spec fn parse_field(part: Seq<char>, max: nat) -> Option<nat> {
    match unsigned_value(part) {
        Some(v) => if v <= max {
            Some(v)
        } else {
            None
        },
        None => None,
    }
}

/// The fields that a problem-set ID spells, or the first error found
/// reading it left to right.
pub open spec fn identity_fields(s: Seq<char>) -> Result<(u16, u32, u32, Seq<char>, u8), IdentityError> {
    let parts = split_dash(s);
    match parse_field(parts[0], u16::MAX as nat) {
        None => Err(IdentityError::InvalidNumericPart { name: "schema_version" }),
        Some(version) => if parts.len() < 2 {
            Err(IdentityError::MalformedProblemSetId)
        } else {
            match parse_field(parts[1], u32::MAX as nat) {
                None => Err(IdentityError::InvalidNumericPart { name: "numeric_theme_id" }),
                Some(theme) => if parts.len() < 3 {
                    Err(IdentityError::MalformedProblemSetId)
                } else {
                    match parse_field(parts[2], u32::MAX as nat) {
                        None => Err(IdentityError::InvalidNumericPart { name: "generator_revision" }),
                        Some(revision) => if parts.len() < 5 {
                            Err(IdentityError::MalformedProblemSetId)
                        } else {
                            match parse_field(parts[4], u8::MAX as nat) {
                                None => Err(IdentityError::InvalidNumericPart { name: "difficulty" }),
                                Some(d) => if !valid_difficulty(d as u8) {
                                    Err(IdentityError::InvalidDifficulty { value: d as u8 })
                                } else if parts.len() > 5 {
                                    Err(IdentityError::MalformedProblemSetId)
                                } else if version != SCHEMA_VERSION {
                                    Err(
                                        IdentityError::UnsupportedSchemaVersion {
                                            received: version as u16,
                                            expected: SCHEMA_VERSION,
                                        },
                                    )
                                } else {
                                    match seed_check(parts[3]) {
                                        Err(e) => Err(e),
                                        Ok(_) => Ok((version as u16, theme as u32, revision as u32, parts[3], d as u8)),
                                    }
                                }
                            }
                        },
                    }
                },
            }
        },
    }
}

fn split_on_dash(s: &Vec<char>) -> (r: Vec<Vec<char>>)
    ensures
        r@.len() == split_dash(s@).len(),
        forall|i: int| 0 <= i < r@.len() ==> #[trigger] r@[i]@ == split_dash(s@)[i],
{
    let mut parts: Vec<Vec<char>> = Vec::new();
    let mut current: Vec<char> = Vec::new();
    let mut i: usize = 0;
    while i < s.len()
        invariant
            i <= s@.len(),
            parts@.len() + 1 == split_dash(s@.take(i as int)).len(),
            forall|j: int| 0 <= j < parts@.len() ==> #[trigger] parts@[j]@ == split_dash(s@.take(i as int))[j],
            current@ == split_dash(s@.take(i as int)).last(),
        decreases s@.len() - i,
    {
        proof {
            assert(s@.take(i + 1).drop_last() =~= s@.take(i as int));
            lemma_split_dash_nonempty(s@.take(i as int));
        }
        if s[i] == '-' {
            let done = current;
            parts.push(done);
            current = Vec::new();
        } else {
            current.push(s[i]);
        }
        i += 1;
    }
    proof {
        assert(s@.take(s@.len() as int) =~= s@);
    }
    parts.push(current);
    parts
}

/// The value of a decimal field when it is at most `max`.
fn parse_field_exec(part: &Vec<char>, max: u64) -> (r: Option<u64>)
    ensures
        match r {
            Some(v) => parse_field(part@, max as nat) == Some(v as nat),
            None => parse_field(part@, max as nat) is None,
        },
{
    let start: usize = if part.len() > 0 && part[0] == '+' {
        1
    } else {
        0
    };
    let ghost body = if part@.len() > 0 && part@[0] == '+' {
        part@.subrange(1, part@.len() as int)
    } else {
        part@
    };
    assert(body =~= part@.subrange(start as int, part@.len() as int));
    if start >= part.len() {
        return None;
    }
    let mut i: usize = start;
    while i < part.len()
        invariant
            start <= i <= part@.len(),
            body =~= part@.subrange(start as int, part@.len() as int),
            body == (if part@.len() > 0 && part@[0] == '+' {
                part@.subrange(1, part@.len() as int)
            } else {
                part@
            }),
            forall|j: int| start <= j < i ==> is_ascii_digit(#[trigger] part@[j]),
        decreases part@.len() - i,
    {
        if !(part[i] >= '0' && part[i] <= '9') {
            proof {
                assert(!is_ascii_digit(body[i - start]));
            }
            return None;
        }
        i += 1;
    }
    assert(forall|j: int| 0 <= j < body.len() ==> is_ascii_digit(#[trigger] body[j])) by {
        assert forall|j: int| 0 <= j < body.len() implies is_ascii_digit(#[trigger] body[j]) by {
            assert(body[j] == part@[start + j]);
        }
    }
    let mut value: u128 = 0;
    let mut k: usize = start;
    while k < part.len()
        invariant
            start <= k <= part@.len(),
            body =~= part@.subrange(start as int, part@.len() as int),
            body == (if part@.len() > 0 && part@[0] == '+' {
                part@.subrange(1, part@.len() as int)
            } else {
                part@
            }),
            forall|j: int| 0 <= j < body.len() ==> is_ascii_digit(#[trigger] body[j]),
            value == digits_value(body.take(k - start)),
            value <= max,
        decreases part@.len() - k,
    {
        proof {
            assert(body.take(k + 1 - start).drop_last() =~= body.take(k - start));
            assert(body.take(k + 1 - start).last() == part@[k as int]);
        }
        let digit = (part[k] as u32 - '0' as u32) as u128;
        value = value * 10 + digit;
        if value > max as u128 {
            proof {
                lemma_digits_value_prefix(body, k + 1 - start);
            }
            return None;
        }
        k += 1;
    }
    proof {
        assert(body.take(part@.len() - start) =~= body);
    }
    Some(value as u64)
}

impl ProblemSetIdentity {
    /// The textual problem-set ID of this identity.
    pub fn to_id_string(&self) -> (r: String)
        ensures
            r@ == id_text(self.schema_version, self.numeric_theme_id, self.generator_revision, self.seed@, self.difficulty@),
    {
        let mut out: Vec<char> = Vec::new();
        push_decimal(&mut out, self.schema_version as u64);
        out.push('-');
        push_decimal(&mut out, self.numeric_theme_id as u64);
        out.push('-');
        push_decimal(&mut out, self.generator_revision as u64);
        out.push('-');
        let seed = chars_of(self.seed.as_str());
        let mut i: usize = 0;
        let ghost before = out@;
        while i < seed.len()
            invariant
                i <= seed@.len(),
                out@ == before + seed@.take(i as int),
            decreases seed@.len() - i,
        {
            proof {
                assert(seed@.take(i + 1) =~= seed@.take(i as int).push(seed@[i as int]));
            }
            out.push(seed[i]);
            i += 1;
        }
        proof {
            assert(seed@.take(seed@.len() as int) =~= seed@);
        }
        out.push('-');
        push_decimal(&mut out, self.difficulty.value() as u64);
        proof {
            assert(out@ =~= id_text(
                self.schema_version,
                self.numeric_theme_id,
                self.generator_revision,
                self.seed@,
                self.difficulty@,
            ));
        }
        string_from_chars(out.as_slice())
    }

    /// Reads a problem-set ID; it must name the current schema, a valid seed
    /// and a difficulty from one to five.
    pub fn parse(value: &str) -> (r: Result<Self, IdentityError>)
        ensures
            match r {
                Ok(id) => identity_fields(value@) == Ok::<(u16, u32, u32, Seq<char>, u8), IdentityError>(
                    (id.schema_version, id.numeric_theme_id, id.generator_revision, id.seed@, id.difficulty@),
                ),
                Err(e) => identity_fields(value@) == Err::<(u16, u32, u32, Seq<char>, u8), IdentityError>(e),
            },
    {
        let chars = chars_of(value);
        let parts = split_on_dash(&chars);
        proof {
            lemma_split_dash_nonempty(chars@);
        }
        let schema_version = match parse_field_exec(&parts[0], 65535) {
            Some(v) => v as u16,
            None => return Err(IdentityError::InvalidNumericPart { name: "schema_version" }),
        };
        if parts.len() < 2 {
            return Err(IdentityError::MalformedProblemSetId);
        }
        let numeric_theme_id = match parse_field_exec(&parts[1], 4294967295) {
            Some(v) => v as u32,
            None => return Err(IdentityError::InvalidNumericPart { name: "numeric_theme_id" }),
        };
        if parts.len() < 3 {
            return Err(IdentityError::MalformedProblemSetId);
        }
        let generator_revision = match parse_field_exec(&parts[2], 4294967295) {
            Some(v) => v as u32,
            None => return Err(IdentityError::InvalidNumericPart { name: "generator_revision" }),
        };
        if parts.len() < 5 {
            return Err(IdentityError::MalformedProblemSetId);
        }
        let seed = string_from_chars(parts[3].as_slice());
        let difficulty_value = match parse_field_exec(&parts[4], 255) {
            Some(v) => v as u8,
            None => return Err(IdentityError::InvalidNumericPart { name: "difficulty" }),
        };
        let difficulty = match Difficulty::try_from(difficulty_value) {
            Ok(d) => d,
            Err(e) => return Err(e),
        };
        if parts.len() > 5 {
            return Err(IdentityError::MalformedProblemSetId);
        }
        if schema_version != SCHEMA_VERSION {
            return Err(IdentityError::UnsupportedSchemaVersion { received: schema_version, expected: SCHEMA_VERSION });
        }
        match validate_seed(seed.as_str()) {
            Err(e) => return Err(e),
            Ok(()) => {},
        }
        Ok(Self { schema_version, numeric_theme_id, generator_revision, seed, difficulty })
    }
}


pub open spec fn no_dash(s: Seq<char>) -> bool {
    forall|i: int| 0 <= i < s.len() ==> #[trigger] s[i] != '-'
}

/// A character of the seed alphabet.
pub open spec fn seed_char(c: char) -> bool {
    (('1' <= c && c <= '9') || ('a' <= c && c <= 'z') || ('A' <= c && c <= 'Z')) && c != 'I' && c != 'l' && c
        != 'O'
}

/// One to sixteen characters of the seed alphabet.
pub open spec fn seed_chars_valid(seed: Seq<char>) -> bool {
    1 <= seed.len() <= MAX_SEED_LENGTH && forall|i: int| 0 <= i < seed.len() ==> seed_char(#[trigger] seed[i])
}

proof fn lemma_digit_char_value(d: nat)
    requires
        d < 10,
    ensures
        digit_char(d) as nat - '0' as nat == d,
        is_ascii_digit(digit_char(d)),
{
}

pub proof fn lemma_decimal_chars(n: nat)
    ensures
        decimal_chars(n).len() > 0,
        all_ascii_digits(decimal_chars(n)),
        digits_value(decimal_chars(n)) == n,
    decreases n,
{
    lemma_digit_char_value(n % 10);
    if n < 10 {
        let dn = decimal_chars(n);
        assert(dn.drop_last() =~= Seq::<char>::empty());
        assert(dn.last() == digit_char(n));
        assert(digits_value(dn) == digits_value(dn.drop_last()) * 10 + (dn.last() as nat - '0' as nat) as nat);
        assert(digits_value(Seq::<char>::empty()) == 0);
    } else {
        lemma_decimal_chars(n / 10);
        let x = decimal_chars(n / 10);
        let dn = decimal_chars(n);
        assert(dn.drop_last() =~= x);
        assert(dn.last() == digit_char(n % 10));
        assert(digits_value(dn) == digits_value(dn.drop_last()) * 10 + (dn.last() as nat - '0' as nat) as nat);
        assert(digits_value(dn) == (n / 10) * 10 + n % 10);
        assert(all_ascii_digits(decimal_chars(n))) by {
            assert forall|i: int| 0 <= i < decimal_chars(n).len() implies is_ascii_digit(#[trigger] decimal_chars(n)[i]) by {
                if i < x.len() {
                    assert(decimal_chars(n)[i] == x[i]);
                }
            }
        }
    }
}

pub proof fn lemma_split_append(a: Seq<char>, c: Seq<char>)
    requires
        no_dash(c),
    ensures
        split_dash(a + c) == split_dash(a).update(split_dash(a).len() - 1, split_dash(a).last() + c),
    decreases c.len(),
{
    lemma_split_dash_nonempty(a);
    if c.len() == 0 {
        assert(a + c =~= a);
        assert(split_dash(a).last() + c =~= split_dash(a).last());
        assert(split_dash(a).update(split_dash(a).len() - 1, split_dash(a).last()) =~= split_dash(a));
    } else {
        lemma_split_append(a, c.drop_last());
        assert((a + c).drop_last() =~= a + c.drop_last());
        assert((a + c).last() == c.last());
        assert((split_dash(a).last() + c.drop_last()).push(c.last()) =~= split_dash(a).last() + c);
        assert(split_dash(a + c) =~= split_dash(a).update(split_dash(a).len() - 1, split_dash(a).last() + c));
    }
}

pub proof fn lemma_split_dash_sep(a: Seq<char>)
    ensures
        split_dash(a + seq!['-']) == split_dash(a).push(Seq::empty()),
{
    assert((a + seq!['-']).drop_last() =~= a);
}

proof fn lemma_field_value(n: nat, max: nat)
    requires
        n <= max,
    ensures
        parse_field(decimal_chars(n), max) == Some(n),
        no_dash(decimal_chars(n)),
{
    lemma_decimal_chars(n);
    let d = decimal_chars(n);
    assert(is_ascii_digit(d[0]));
    assert forall|i: int| 0 <= i < d.len() implies #[trigger] d[i] != '-' by {
        assert(is_ascii_digit(d[i]));
    }
}

proof fn lemma_leading_bytes_high(c: u32)
    ensures
        leading_byte_width_2(c) >= 0xC0,
        leading_byte_width_3(c) >= 0xE0,
        leading_byte_width_4(c) >= 0xF0,
{
    assert(0xC0 | ((c >> 6) & 0x1F) as u8 >= 0xC0) by (bit_vector);
    assert(0xE0 | ((c >> 12) & 0x0F) as u8 >= 0xE0) by (bit_vector);
    assert(0xF0 | ((c >> 18) & 0x7) as u8 >= 0xF0) by (bit_vector);
}

/// A text whose UTF-8 bytes all belong to the seed alphabet is a text of
/// seed characters, one byte each.
pub proof fn lemma_seed_bytes_are_seed_chars(seed: Seq<char>)
    requires
        seed_bytes_valid(encode_utf8(seed)),
    ensures
        encode_utf8(seed).len() == seed.len(),
        forall|i: int| 0 <= i < seed.len() ==> seed_char(#[trigger] seed[i]),
    decreases seed.len(),
{
    if seed.len() > 0 {
        let ch = seed[0];
        let c = ch as u32;
        let e = encode_scalar(c);
        let rest = seed.drop_first();
        let bytes = encode_utf8(seed);
        assert(bytes == e + encode_utf8(rest));
        assert(is_seed_byte_spec(bytes[0]));
        lemma_leading_bytes_high(c);
        assert(has_width_1_encoding(c));
        assert(e[0] == (c & 0x7F) as u8);
        assert((c & 0x7F) as u8 == c) by (bit_vector)
            requires
                c <= 0x7F,
        ;
        assert(e.len() == 1);
        assert(seed_bytes_valid(encode_utf8(rest))) by {
            assert forall|i: int| 0 <= i < encode_utf8(rest).len() implies is_seed_byte_spec(
                #[trigger] encode_utf8(rest)[i],
            ) by {
                assert(bytes[i + 1] == encode_utf8(rest)[i]);
            }
        }
        lemma_seed_bytes_are_seed_chars(rest);
        char_u32_cast(ch, c);
        assert(c as char == ch);
        assert(seed_char(ch));
        assert forall|i: int| 0 <= i < seed.len() implies seed_char(#[trigger] seed[i]) by {
            if i > 0 {
                assert(seed[i] == rest[i - 1]);
            }
        }
    }
}

/// A seed that `validate_seed` accepts is one to sixteen characters of the
/// seed alphabet: the byte check of `validate_seed` is the character check
/// under which identities round-trip.
pub proof fn lemma_accepted_seed_chars(seed: Seq<char>)
    requires
        seed_check(seed) is Ok,
    ensures
        seed_chars_valid(seed),
{
    lemma_seed_bytes_are_seed_chars(seed);
}

/// Writing an identity as its problem-set ID and reading that ID back gives
/// the same identity.
pub proof fn lemma_identity_round_trip(version: u16, theme: u32, revision: u32, seed: Seq<char>, difficulty: u8)
    requires
        version == SCHEMA_VERSION,
        valid_difficulty(difficulty),
        seed_chars_valid(seed),
    ensures
        identity_fields(id_text(version, theme, revision, seed, difficulty)) == Ok::<
            (u16, u32, u32, Seq<char>, u8),
            IdentityError,
        >((version, theme, revision, seed, difficulty)),
{
    let a = decimal_chars(version as nat);
    let b = decimal_chars(theme as nat);
    let c = decimal_chars(revision as nat);
    let d = decimal_chars(difficulty as nat);
    let sep = seq!['-'];
    lemma_field_value(version as nat, u16::MAX as nat);
    lemma_field_value(theme as nat, u32::MAX as nat);
    lemma_field_value(revision as nat, u32::MAX as nat);
    lemma_field_value(difficulty as nat, u8::MAX as nat);
    assert(no_dash(seed)) by {
        assert forall|i: int| 0 <= i < seed.len() implies #[trigger] seed[i] != '-' by {
            assert(seed_char(seed[i]));
        }
    }
    let empty = Seq::<char>::empty();
    lemma_split_append(empty, a);
    assert(empty + a =~= a);
    assert(split_dash(a) =~= seq![a]);
    lemma_split_dash_sep(a);
    let t2 = a + sep;
    lemma_split_append(t2, b);
    let t3 = t2 + b;
    assert(split_dash(t3) =~= seq![a, b]);
    lemma_split_dash_sep(t3);
    let t4 = t3 + sep;
    lemma_split_append(t4, c);
    let t5 = t4 + c;
    assert(split_dash(t5) =~= seq![a, b, c]);
    lemma_split_dash_sep(t5);
    let t6 = t5 + sep;
    lemma_split_append(t6, seed);
    let t7 = t6 + seed;
    assert(split_dash(t7) =~= seq![a, b, c, seed]);
    lemma_split_dash_sep(t7);
    let t8 = t7 + sep;
    lemma_split_append(t8, d);
    let t9 = t8 + d;
    assert(split_dash(t9) =~= seq![a, b, c, seed, d]);
    assert(t9 == id_text(version, theme, revision, seed, difficulty));
    assert(is_ascii_chars(seed));
    is_ascii_chars_encode_utf8(seed);
    assert(seed_bytes_valid(encode_utf8(seed))) by {
        assert forall|i: int| 0 <= i < encode_utf8(seed).len() implies is_seed_byte_spec(#[trigger] encode_utf8(seed)[i]) by {
            assert(seed_char(seed[i]));
            assert(seed[i] as u8 == encode_utf8(seed)[i]);
        }
    }
}

/// Every identity whose seed `validate_seed` accepts round-trips through its
/// problem-set ID.
pub proof fn lemma_accepted_identity_round_trip(version: u16, theme: u32, revision: u32, seed: Seq<char>, difficulty: u8)
    requires
        version == SCHEMA_VERSION,
        valid_difficulty(difficulty),
        seed_check(seed) is Ok,
    ensures
        identity_fields(id_text(version, theme, revision, seed, difficulty)) == Ok::<
            (u16, u32, u32, Seq<char>, u8),
            IdentityError,
        >((version, theme, revision, seed, difficulty)),
{
    lemma_accepted_seed_chars(seed);
    lemma_identity_round_trip(version, theme, revision, seed, difficulty);
}

} // verus!
