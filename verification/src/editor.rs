//! The structured answer editor: an immutable state snapshot (the answer
//! tree, the path to the active numeric slot, a cursor in that slot's
//! decimal text, and whether the answer was committed) and the typed
//! actions that step it. Every resulting state stays within the size limit
//! and the input capability; an action that would leave them fails.

use vstd::prelude::*;
use crate::answer::{
    lemma_tuple_view_eq, lemma_view_nodes, view_nodes, within_size_limit, AnswerNode, AnswerValue,
    MAX_ANSWER_AST_SIZE,
};
use crate::error::EditorError;
use crate::input::{capability_check, ensure_capability};
use crate::model::{AnswerInputInterface, EditorStructure};
use crate::text::{decimal_chars, digit_char, digits_value, is_ascii_digit, push_decimal, string_from_chars};

verus! {

/// The child of a node at position `index` (numerator before denominator,
/// whole first, radicand before index, tuple items in order).
pub open spec fn child_of(v: AnswerValue, index: usize) -> Option<AnswerValue> {
    match v {
        AnswerValue::Fraction { numerator, denominator } => if index == 0 {
            Some(*numerator)
        } else if index == 1 {
            Some(*denominator)
        } else {
            None
        },
        AnswerValue::MixedFraction { whole, numerator, denominator } => if index == 0 {
            Some(*whole)
        } else if index == 1 {
            Some(*numerator)
        } else if index == 2 {
            Some(*denominator)
        } else {
            None
        },
        AnswerValue::Root { radicand, index: root_index } => if index == 0 {
            Some(*radicand)
        } else if index == 1 {
            match root_index {
                Some(i) => Some(*i),
                None => None,
            }
        } else {
            None
        },
        AnswerValue::Negative(x) => if index == 0 {
            Some(*x)
        } else {
            None
        },
        AnswerValue::PlusMinus(x) => if index == 0 {
            Some(*x)
        } else {
            None
        },
        AnswerValue::Tuple(vs) => if index < vs.len() {
            Some(vs[index as int])
        } else {
            None
        },
        _ => None,
    }
}

/// The node at the end of `path`, if the path leads anywhere.
pub open spec fn node_at(v: AnswerValue, path: Seq<usize>) -> Option<AnswerValue>
    decreases path.len(),
{
    if path.len() == 0 {
        Some(v)
    } else {
        match child_of(v, path[0]) {
            Some(c) => node_at(c, path.drop_first()),
            None => None,
        }
    }
}

/// `v` with its child at `index` replaced by `c` (where that child exists).
pub open spec fn with_child(v: AnswerValue, index: usize, c: AnswerValue) -> AnswerValue {
    match v {
        AnswerValue::Fraction { numerator, denominator } => if index == 0 {
            AnswerValue::Fraction { numerator: Box::new(c), denominator }
        } else {
            AnswerValue::Fraction { numerator, denominator: Box::new(c) }
        },
        AnswerValue::MixedFraction { whole, numerator, denominator } => if index == 0 {
            AnswerValue::MixedFraction { whole: Box::new(c), numerator, denominator }
        } else if index == 1 {
            AnswerValue::MixedFraction { whole, numerator: Box::new(c), denominator }
        } else {
            AnswerValue::MixedFraction { whole, numerator, denominator: Box::new(c) }
        },
        AnswerValue::Root { radicand, index: root_index } => if index == 0 {
            AnswerValue::Root { radicand: Box::new(c), index: root_index }
        } else {
            AnswerValue::Root { radicand, index: Some(Box::new(c)) }
        },
        AnswerValue::Negative(_) => AnswerValue::Negative(Box::new(c)),
        AnswerValue::PlusMinus(_) => AnswerValue::PlusMinus(Box::new(c)),
        AnswerValue::Tuple(vs) => AnswerValue::Tuple(vs.update(index as int, c)),
        _ => v,
    }
}

/// `v` with the node at the end of `path` replaced by `new`, if the path
/// leads anywhere.
pub open spec fn replace_at(v: AnswerValue, path: Seq<usize>, new: AnswerValue) -> Option<AnswerValue>
    decreases path.len(),
{
    if path.len() == 0 {
        Some(new)
    } else {
        match child_of(v, path[0]) {
            Some(c) => match replace_at(c, path.drop_first(), new) {
                Some(n) => Some(with_child(v, path[0], n)),
                None => None,
            },
            None => None,
        }
    }
}

fn child_at(answer: &AnswerNode, index: usize) -> (r: Option<&AnswerNode>)
    ensures
        match child_of(answer@, index) {
            Some(c) => r matches Some(n) && n@ == c,
            None => r is None,
        },
{
    match answer {
        AnswerNode::Fraction { numerator, denominator } => if index == 0 {
            Some(numerator)
        } else if index == 1 {
            Some(denominator)
        } else {
            None
        },
        AnswerNode::MixedFraction { whole, numerator, denominator } => if index == 0 {
            Some(whole)
        } else if index == 1 {
            Some(numerator)
        } else if index == 2 {
            Some(denominator)
        } else {
            None
        },
        AnswerNode::Root { radicand, index: root_index } => if index == 0 {
            Some(radicand)
        } else if index == 1 {
            match root_index {
                Some(i) => Some(i),
                None => None,
            }
        } else {
            None
        },
        AnswerNode::Negative(x) => if index == 0 {
            Some(x)
        } else {
            None
        },
        AnswerNode::PlusMinus(x) => if index == 0 {
            Some(x)
        } else {
            None
        },
        AnswerNode::Tuple(vs) => {
            proof {
                lemma_view_nodes(vs@, vs@.len());
            }
            if index < vs.len() {
                Some(&vs[index])
            } else {
                None
            }
        },
        _ => None,
    }
}

fn node_at_exec<'a>(answer: &'a AnswerNode, path: &Vec<usize>) -> (r: Option<&'a AnswerNode>)
    ensures
        match node_at(answer@, path@) {
            Some(c) => r matches Some(n) && n@ == c,
            None => r is None,
        },
{
    let mut node: &AnswerNode = answer;
    let mut k: usize = 0;
    proof {
        assert(path@.skip(0) =~= path@);
    }
    while k < path.len()
        invariant
            k <= path@.len(),
            node_at(answer@, path@) == node_at(node@, path@.skip(k as int)),
        decreases path@.len() - k,
    {
        proof {
            assert(path@.skip(k as int).drop_first() =~= path@.skip(k + 1));
        }
        match child_at(node, path[k]) {
            Some(c) => {
                node = c;
            },
            None => {
                return None;
            },
        }
        k += 1;
    }
    Some(node)
}

fn copy_nodes(vs: &Vec<AnswerNode>) -> (r: Vec<AnswerNode>)
    ensures
        r@.len() == vs@.len(),
        forall|i: int| 0 <= i < vs@.len() ==> #[trigger] r@[i]@ == vs@[i]@,
{
    let mut out: Vec<AnswerNode> = Vec::new();
    let mut k: usize = 0;
    while k < vs.len()
        invariant
            k <= vs@.len(),
            out@.len() == k,
            forall|i: int| 0 <= i < k ==> #[trigger] out@[i]@ == vs@[i]@,
        decreases vs@.len() - k,
    {
        out.push(vs[k].duplicate());
        k += 1;
    }
    out
}

fn replace_at_exec(answer: &AnswerNode, path: &Vec<usize>, k: usize, new: AnswerNode) -> (r: Option<AnswerNode>)
    requires
        k <= path@.len(),
    ensures
        match replace_at(answer@, path@.skip(k as int), new@) {
            Some(c) => r matches Some(n) && n@ == c,
            None => r is None,
        },
    decreases path@.len() - k,
{
    if k == path.len() {
        return Some(new);
    }
    proof {
        assert(path@.skip(k as int).drop_first() =~= path@.skip(k + 1));
        assert(path@.skip(k as int)[0] == path@[k as int]);
    }
    let index = path[k];
    let child = match child_at(answer, index) {
        Some(c) => c,
        None => {
            return None;
        },
    };
    let replaced = match replace_at_exec(child, path, k + 1, new) {
        Some(n) => n,
        None => {
            return None;
        },
    };
    let ghost rv = replaced@;
    match answer {
        AnswerNode::Fraction { numerator, denominator } => if index == 0 {
            Some(AnswerNode::Fraction { numerator: Box::new(replaced), denominator: Box::new(denominator.duplicate()) })
        } else {
            Some(AnswerNode::Fraction { numerator: Box::new(numerator.duplicate()), denominator: Box::new(replaced) })
        },
        AnswerNode::MixedFraction { whole, numerator, denominator } => if index == 0 {
            Some(
                AnswerNode::MixedFraction {
                    whole: Box::new(replaced),
                    numerator: Box::new(numerator.duplicate()),
                    denominator: Box::new(denominator.duplicate()),
                },
            )
        } else if index == 1 {
            Some(
                AnswerNode::MixedFraction {
                    whole: Box::new(whole.duplicate()),
                    numerator: Box::new(replaced),
                    denominator: Box::new(denominator.duplicate()),
                },
            )
        } else {
            Some(
                AnswerNode::MixedFraction {
                    whole: Box::new(whole.duplicate()),
                    numerator: Box::new(numerator.duplicate()),
                    denominator: Box::new(replaced),
                },
            )
        },
        AnswerNode::Root { radicand, index: root_index } => if index == 0 {
            let kept = match root_index {
                Some(i) => Some(Box::new(i.duplicate())),
                None => None,
            };
            Some(AnswerNode::Root { radicand: Box::new(replaced), index: kept })
        } else {
            Some(AnswerNode::Root { radicand: Box::new(radicand.duplicate()), index: Some(Box::new(replaced)) })
        },
        AnswerNode::Negative(_) => Some(AnswerNode::Negative(Box::new(replaced))),
        AnswerNode::PlusMinus(_) => Some(AnswerNode::PlusMinus(Box::new(replaced))),
        AnswerNode::Tuple(vs) => {
            proof {
                lemma_view_nodes(vs@, vs@.len());
            }
            let mut items = copy_nodes(vs);
            items.set(index, replaced);
            proof {
                let t = view_nodes(vs@, vs@.len()).update(index as int, rv);
                assert forall|j: int| 0 <= j < items@.len() implies #[trigger] items@[j]@ == t[j] by {}
                lemma_tuple_view_eq(items@, t);
            }
            Some(AnswerNode::Tuple(items))
        },
        _ => None,
    }
}

/// `n` zero characters.
pub open spec fn zeros(n: nat) -> Seq<char> {
    Seq::new(n, |i: int| '0')
}

/// The draft text of a nonnegative decimal `c / 10^scale`: a trailing
/// point for scale zero, a leading `0.` and padding zeros when every digit
/// is fractional.
pub open spec fn decimal_display(c: nat, scale: nat) -> Seq<char> {
    let digits = decimal_chars(c);
    if scale == 0 {
        digits.push('.')
    } else if digits.len() <= scale {
        seq!['0', '.'] + zeros((scale - digits.len()) as nat) + digits
    } else {
        let split = digits.len() - scale;
        digits.take(split) + seq!['.'] + digits.skip(split)
    }
}

/// The size limit as a check.
pub open spec fn size_check(v: AnswerValue) -> Result<(), EditorError> {
    if within_size_limit(v) {
        Ok(())
    } else {
        Err(EditorError::AnswerSizeLimit { max_size: MAX_ANSWER_AST_SIZE })
    }
}

/// The editable text of a slot: nothing for an empty slot, the digits of a
/// nonnegative integer or decimal, the raw text of malformed input.
pub open spec fn draft_text(v: AnswerValue) -> Result<Seq<char>, EditorError> {
    if !within_size_limit(v) {
        Err(EditorError::AnswerSizeLimit { max_size: MAX_ANSWER_AST_SIZE })
    } else {
        match v {
            AnswerValue::Empty => Ok(Seq::empty()),
            AnswerValue::Integer(x) => if x >= 0 {
                Ok(decimal_chars(x as nat))
            } else {
                Err(EditorError::NegativeDraft)
            },
            AnswerValue::ExactDecimal { coefficient, scale } => if coefficient >= 0 {
                Ok(decimal_display(coefficient as nat, scale as nat))
            } else {
                Err(EditorError::NegativeDraft)
            },
            AnswerValue::NanError(raw) => Ok(raw),
            _ => Err(EditorError::UnsupportedDraftNode),
        }
    }
}

proof fn lemma_decimal_chars_len(v: nat)
    ensures
        decimal_chars(v).len() == crate::text::digit_count(v),
    decreases v,
{
    if v >= 10 {
        lemma_decimal_chars_len(v / 10);
    }
}

/// A draft text is at most twenty characters long.
proof fn lemma_draft_text_short(v: AnswerValue)
    ensures
        draft_text(v) matches Ok(t) ==> t.len() <= 20,
{
    if within_size_limit(v) {
        match v {
            AnswerValue::Integer(x) => {
                if x >= 0 {
                    lemma_decimal_chars_len(x as nat);
                }
            },
            AnswerValue::ExactDecimal { coefficient, scale } => {
                if coefficient >= 0 {
                    lemma_decimal_chars_len(coefficient as nat);
                }
            },
            _ => {},
        }
    }
}

fn decimal_display_exec(c: u64, scale: u32) -> (r: Vec<char>)
    ensures
        r@ == decimal_display(c as nat, scale as nat),
{
    let mut digits: Vec<char> = Vec::new();
    push_decimal(&mut digits, c);
    proof {
        assert(digits@ =~= decimal_chars(c as nat));
    }
    if scale == 0 {
        digits.push('.');
        return digits;
    }
    let n = digits.len();
    let sc = scale as usize;
    let mut out: Vec<char> = Vec::new();
    if n <= sc {
        out.push('0');
        out.push('.');
        let mut k: usize = 0;
        while k < sc - n
            invariant
                k <= sc - n,
                out@ == seq!['0', '.'] + zeros(k as nat),
            decreases sc - n - k,
        {
            out.push('0');
            proof {
                assert(out@ =~= seq!['0', '.'] + zeros((k + 1) as nat));
            }
            k += 1;
        }
        let mut j: usize = 0;
        while j < n
            invariant
                j <= n,
                n == digits@.len(),
                out@ == seq!['0', '.'] + zeros((sc - n) as nat) + digits@.take(j as int),
            decreases n - j,
        {
            out.push(digits[j]);
            proof {
                assert(out@ =~= seq!['0', '.'] + zeros((sc - n) as nat) + digits@.take(j + 1));
            }
            j += 1;
        }
        proof {
            assert(digits@.take(n as int) =~= digits@);
        }
        out
    } else {
        let split = n - sc;
        let mut j: usize = 0;
        while j < n
            invariant
                j <= n,
                n == digits@.len(),
                split == n - sc,
                0 < split < n,
                j <= split ==> out@ == digits@.take(j as int),
                j > split ==> out@ == digits@.take(split as int) + seq!['.'] + digits@.subrange(
                    split as int,
                    j as int,
                ),
            decreases n - j,
        {
            if j == split {
                out.push('.');
                proof {
                    assert(out@ =~= digits@.take(split as int) + seq!['.'] + digits@.subrange(split as int, j as int));
                }
            }
            out.push(digits[j]);
            proof {
                if j + 1 <= split {
                    assert(out@ =~= digits@.take(j + 1));
                } else {
                    assert(out@ =~= digits@.take(split as int) + seq!['.'] + digits@.subrange(split as int, j + 1));
                }
            }
            j += 1;
        }
        proof {
            assert(digits@.subrange(split as int, n as int) =~= digits@.skip(split as int));
        }
        out
    }
}

fn size_check_exec(answer: &AnswerNode) -> (r: Result<(), EditorError>)
    ensures
        r == size_check(answer@),
{
    if answer.is_within_size_limit() {
        Ok(())
    } else {
        Err(EditorError::AnswerSizeLimit { max_size: MAX_ANSWER_AST_SIZE })
    }
}

fn draft_text_exec(answer: &AnswerNode) -> (r: Result<Vec<char>, EditorError>)
    ensures
        match draft_text(answer@) {
            Ok(t) => r matches Ok(v) && v@ == t,
            Err(e) => r == Err::<Vec<char>, EditorError>(e),
        },
{
    if !answer.is_within_size_limit() {
        return Err(EditorError::AnswerSizeLimit { max_size: MAX_ANSWER_AST_SIZE });
    }
    match answer {
        AnswerNode::Empty => Ok(Vec::new()),
        AnswerNode::Integer(x) => if *x >= 0 {
            let mut out: Vec<char> = Vec::new();
            push_decimal(&mut out, *x as u64);
            proof {
                assert(out@ =~= decimal_chars(*x as nat));
            }
            Ok(out)
        } else {
            Err(EditorError::NegativeDraft)
        },
        AnswerNode::ExactDecimal { coefficient, scale } => if *coefficient >= 0 {
            Ok(decimal_display_exec(*coefficient as u64, *scale))
        } else {
            Err(EditorError::NegativeDraft)
        },
        AnswerNode::NanError(raw) => Ok(crate::text::chars_of(raw.as_str())),
        _ => Err(EditorError::UnsupportedDraftNode),
    }
}

/// How many decimal points `t` has.
pub open spec fn dot_count(t: Seq<char>) -> nat
    decreases t.len(),
{
    if t.len() == 0 {
        0
    } else {
        dot_count(t.drop_last()) + if t.last() == '.' {
            1nat
        } else {
            0nat
        }
    }
}

/// Whether `t` holds only ASCII digits and points.
pub open spec fn digits_and_points(t: Seq<char>) -> bool {
    forall|i: int| 0 <= i < t.len() ==> is_ascii_digit(#[trigger] t[i]) || t[i] == '.'
}

/// The position of the first point of `t`, or its length when it has none.
pub open spec fn first_point(t: Seq<char>) -> nat
    decreases t.len(),
{
    if t.len() == 0 {
        0
    } else if t[0] == '.' {
        0
    } else {
        1 + first_point(t.drop_first())
    }
}

/// The number that a well-formed draft text spells: a decimal when it has
/// a point (its digits, with as many fractional places as follow the
/// point), otherwise an integer; too large a value is an overflow.
pub open spec fn parsed_draft(t: Seq<char>) -> Result<AnswerValue, EditorError> {
    let p = first_point(t);
    if p < t.len() {
        let digits = t.take(p as int) + t.skip(p as int + 1);
        let places = t.len() - (p + 1);
        if digits_value(digits) > i64::MAX {
            Err(EditorError::IntegerOverflow)
        } else if places > u32::MAX {
            Err(EditorError::IntegerOverflow)
        } else {
            Ok(AnswerValue::ExactDecimal { coefficient: digits_value(digits) as i64, scale: places as u32 })
        }
    } else if digits_value(t) > i64::MAX {
        Err(EditorError::IntegerOverflow)
    } else {
        Ok(AnswerValue::Integer(digits_value(t) as i64))
    }
}

/// The answer a draft text stands for, and the cursor moved to the same
/// place in its normalized spelling: empty text is an empty slot; text
/// other than digits and one point stays raw; otherwise the number, with
/// the cursor shifted by the characters normalization dropped (a leading
/// `0` added before a bare point counts as one more).
pub open spec fn answer_from_draft(t: Seq<char>, cursor: nat) -> Result<(AnswerValue, nat), EditorError> {
    if t.len() == 0 {
        Ok((AnswerValue::Empty, 0))
    } else if dot_count(t) > 1 || !digits_and_points(t) {
        Ok((AnswerValue::NanError(t), cursor))
    } else {
        match parsed_draft(t) {
            Err(e) => Err(e),
            Ok(a) => match draft_text(a) {
                Err(e) => Err(e),
                Ok(display) => {
                    let added: nat = if t[0] == '.' {
                        1
                    } else {
                        0
                    };
                    let removed: nat = if t.len() + added >= display.len() {
                        (t.len() + added - display.len()) as nat
                    } else {
                        0
                    };
                    let moved: nat = if cursor + added >= removed {
                        (cursor + added - removed) as nat
                    } else {
                        0
                    };
                    Ok((a, if moved <= display.len() {
                        moved
                    } else {
                        display.len()
                    }))
                },
            },
        }
    }
}

proof fn lemma_digit_chars_value(t: Seq<char>, k: int)
    requires
        0 <= k < t.len(),
        is_ascii_digit(t[k]),
    ensures
        digits_value(t.take(k + 1)) == digits_value(t.take(k)) * 10 + (t[k] as nat - '0' as nat),
{
    assert(t.take(k + 1).drop_last() =~= t.take(k));
}

fn parse_digits(t: &Vec<char>) -> (r: Option<u64>)
    requires
        forall|i: int| 0 <= i < t@.len() ==> is_ascii_digit(#[trigger] t@[i]),
    ensures
        digits_value(t@) > i64::MAX ==> r is None,
        digits_value(t@) <= i64::MAX ==> r == Some(digits_value(t@) as u64),
{
    let mut value: u64 = 0;
    let mut k: usize = 0;
    proof {
        assert(t@.take(0) =~= Seq::<char>::empty());
    }
    while k < t.len()
        invariant
            k <= t@.len(),
            forall|i: int| 0 <= i < t@.len() ==> is_ascii_digit(#[trigger] t@[i]),
            value == digits_value(t@.take(k as int)),
            value <= i64::MAX,
        decreases t@.len() - k,
    {
        let c = t[k];
        let d: u64 = if c == '0' { 0 } else if c == '1' { 1 } else if c == '2' { 2 } else if c == '3' { 3 }
            else if c == '4' { 4 } else if c == '5' { 5 } else if c == '6' { 6 } else if c == '7' { 7 }
            else if c == '8' { 8 } else { 9 };
        proof {
            assert(is_ascii_digit(c));
            lemma_digit_chars_value(t@, k as int);
            assert(d == c as nat - '0' as nat);
        }
        if value > (9223372036854775807u64 - d) / 10 {
            proof {
                assert(value * 10 + d > i64::MAX) by (nonlinear_arith)
                    requires
                        value > (9223372036854775807u64 - d) / 10,
                        d <= 9,
                ;
                crate::text::lemma_digits_value_prefix(t@, k + 1);
            }
            return None;
        }
        proof {
            assert(value * 10 + d <= i64::MAX) by (nonlinear_arith)
                requires
                    value <= (9223372036854775807u64 - d) / 10,
                    d <= 9,
            ;
        }
        value = value * 10 + d;
        k += 1;
    }
    proof {
        assert(t@.take(t@.len() as int) =~= t@);
    }
    Some(value)
}

proof fn lemma_first_point(t: Seq<char>, p: int)
    requires
        0 <= p <= t.len(),
        forall|j: int| 0 <= j < p ==> #[trigger] t[j] != '.',
        p < t.len() ==> t[p] == '.',
    ensures
        first_point(t) == p,
    decreases t.len(),
{
    if t.len() > 0 && p > 0 {
        let u = t.drop_first();
        assert forall|j: int| 0 <= j < p - 1 implies #[trigger] u[j] != '.' by {
            assert(u[j] == t[j + 1]);
        }
        if p - 1 < u.len() {
            assert(u[p - 1] == t[p]);
        }
        lemma_first_point(u, p - 1);
    }
}

/// The draft as `answer_from_draft` states it.
pub open spec fn draft_view(r: Result<(AnswerNode, usize), EditorError>) -> Result<(AnswerValue, nat), EditorError> {
    match r {
        Ok((n, c)) => Ok((n@, c as nat)),
        Err(e) => Err(e),
    }
}

fn answer_from_draft_exec(t: &Vec<char>, cursor: usize) -> (r: Result<(AnswerNode, usize), EditorError>)
    ensures
        draft_view(r) == answer_from_draft(t@, cursor as nat),
{
    if t.len() == 0 {
        return Ok((AnswerNode::Empty, 0));
    }
    let mut dots: usize = 0;
    let mut well_formed = true;
    let mut point: usize = t.len();
    let mut k: usize = 0;
    proof {
        assert(t@.take(0) =~= Seq::<char>::empty());
    }
    while k < t.len()
        invariant
            k <= t@.len(),
            dots == dot_count(t@.take(k as int)),
            dots <= k,
            well_formed == digits_and_points(t@.take(k as int)),
            point <= t@.len(),
            point < k ==> t@[point as int] == '.',
            point >= k ==> point == t@.len(),
            forall|j: int| 0 <= j < k && j < point ==> #[trigger] t@[j] != '.',
        decreases t@.len() - k,
    {
        proof {
            assert(t@.take(k + 1).drop_last() =~= t@.take(k as int));
        }
        let c = t[k];
        if c == '.' {
            dots = dots + 1;
            if point == t.len() {
                point = k;
            }
        }
        if !(('0' <= c && c <= '9') || c == '.') {
            proof {
                assert(!digits_and_points(t@.take(k + 1))) by {
                    assert(t@.take(k + 1)[k as int] == c);
                }
            }
            well_formed = false;
        } else {
            proof {
                if well_formed {
                    assert forall|i: int| 0 <= i < t@.take(k + 1).len() implies is_ascii_digit(
                        #[trigger] t@.take(k + 1)[i],
                    ) || t@.take(k + 1)[i] == '.' by {
                        if i < k {
                            assert(t@.take(k + 1)[i] == t@.take(k as int)[i]);
                        }
                    }
                } else {
                    assert(!digits_and_points(t@.take(k + 1))) by {
                        let i = choose|i: int| 0 <= i < t@.take(k as int).len() && !(is_ascii_digit(
                            #[trigger] t@.take(k as int)[i],
                        ) || t@.take(k as int)[i] == '.');
                        assert(t@.take(k + 1)[i] == t@.take(k as int)[i]);
                    }
                }
            }
        }
        k += 1;
    }
    proof {
        assert(t@.take(t@.len() as int) =~= t@);
    }
    if dots > 1 || !well_formed {
        return Ok((AnswerNode::NanError(string_from_chars(t.as_slice())), cursor));
    }
    proof {
        lemma_first_point(t@, point as int);
    }
    let node = if point < t.len() {
        let mut digits: Vec<char> = Vec::new();
        let mut j: usize = 0;
        while j < t.len()
            invariant
                j <= t@.len(),
                point < t@.len(),
                j <= point ==> digits@ == t@.take(j as int),
                j > point ==> digits@ == t@.take(point as int) + t@.subrange(point + 1, j as int),
            decreases t@.len() - j,
        {
            if j != point {
                digits.push(t[j]);
            }
            proof {
                if j + 1 <= point {
                    assert(digits@ =~= t@.take(j + 1));
                } else if j == point {
                    assert(t@.subrange(point + 1, j + 1) =~= Seq::<char>::empty());
                    assert(digits@ =~= t@.take(point as int) + t@.subrange(point + 1, j + 1));
                } else {
                    assert(digits@ =~= t@.take(point as int) + t@.subrange(point + 1, j + 1));
                }
            }
            j += 1;
        }
        proof {
            assert(t@.subrange(point + 1, t@.len() as int) =~= t@.skip(point + 1));
            assert forall|i: int| 0 <= i < digits@.len() implies is_ascii_digit(#[trigger] digits@[i]) by {
                if i < point {
                    assert(digits@[i] == t@[i]);
                    assert(t@[i] != '.');
                } else {
                    assert(digits@[i] == t@[i + 1]);
                    if t@[i + 1] == '.' {
                        assert(dot_count(t@) >= 2) by {
                            lemma_two_points(t@, point as int, i + 1);
                        }
                    }
                }
            }
        }
        let value = match parse_digits(&digits) {
            Some(v) => v,
            None => {
                return Err(EditorError::IntegerOverflow);
            },
        };
        let places = t.len() - (point + 1);
        if places as u64 > 0xFFFF_FFFFu64 {
            return Err(EditorError::IntegerOverflow);
        }
        AnswerNode::ExactDecimal { coefficient: value as i64, scale: places as u32 }
    } else {
        proof {
            assert forall|i: int| 0 <= i < t@.len() implies is_ascii_digit(#[trigger] t@[i]) by {
                assert(t@[i] != '.');
            }
        }
        let value = match parse_digits(t) {
            Some(v) => v,
            None => {
                return Err(EditorError::IntegerOverflow);
            },
        };
        AnswerNode::Integer(value as i64)
    };
    let display = match draft_text_exec(&node) {
        Ok(d) => d,
        Err(e) => {
            return Err(e);
        },
    };
    let added: u128 = if t[0] == '.' {
        1
    } else {
        0
    };
    let effective = t.len() as u128 + added;
    let shown = display.len() as u128;
    let removed = if effective >= shown {
        effective - shown
    } else {
        0
    };
    let shifted = cursor as u128 + added;
    let moved = if shifted >= removed {
        shifted - removed
    } else {
        0
    };
    let at = if moved <= shown {
        moved as usize
    } else {
        display.len()
    };
    Ok((node, at))
}

proof fn lemma_dot_count_at_least(t: Seq<char>, k: int, a: int)
    requires
        0 <= a < k <= t.len(),
        t[a] == '.',
    ensures
        dot_count(t.take(k)) >= 1,
    decreases k,
{
    assert(t.take(k).drop_last() =~= t.take(k - 1));
    if a < k - 1 {
        lemma_dot_count_at_least(t, k - 1, a);
    }
}

proof fn lemma_two_points(t: Seq<char>, a: int, b: int)
    requires
        0 <= a < b < t.len(),
        t[a] == '.',
        t[b] == '.',
    ensures
        dot_count(t) >= 2,
{
    lemma_dot_count_ge(t, t.len() as int, a, b);
    assert(t.take(t.len() as int) =~= t);
}

proof fn lemma_dot_count_ge(t: Seq<char>, k: int, a: int, b: int)
    requires
        0 <= a < b < k <= t.len(),
        t[a] == '.',
        t[b] == '.',
    ensures
        dot_count(t.take(k)) >= 2,
    decreases k,
{
    assert(t.take(k).drop_last() =~= t.take(k - 1));
    if b < k - 1 {
        lemma_dot_count_ge(t, k - 1, a, b);
    } else {
        lemma_dot_count_at_least(t, k - 1, a);
    }
}

/// `t` with `c` put before position `i` (at the end past the last).
pub open spec fn insert_char(t: Seq<char>, i: nat, c: char) -> Seq<char> {
    if i < t.len() {
        t.insert(i as int, c)
    } else {
        t.push(c)
    }
}

/// `t` without its character at position `i` (unchanged past the end).
pub open spec fn remove_char(t: Seq<char>, i: nat) -> Seq<char> {
    if i < t.len() {
        t.remove(i as int)
    } else {
        t
    }
}

fn insert_char_exec(t: &Vec<char>, i: usize, c: char) -> (r: Vec<char>)
    ensures
        r@ == insert_char(t@, i as nat, c),
{
    let mut out: Vec<char> = Vec::new();
    let mut k: usize = 0;
    while k < t.len()
        invariant
            k <= t@.len(),
            k <= i ==> out@ == t@.take(k as int),
            k > i ==> out@ == t@.take(i as int).push(c) + t@.subrange(i as int, k as int),
        decreases t@.len() - k,
    {
        if k == i {
            out.push(c);
        }
        out.push(t[k]);
        proof {
            if k + 1 <= i {
                assert(out@ =~= t@.take(k + 1));
            } else {
                assert(out@ =~= t@.take(i as int).push(c) + t@.subrange(i as int, k + 1));
            }
        }
        k += 1;
    }
    if i >= t.len() {
        out.push(c);
        proof {
            assert(t@.take(t@.len() as int) =~= t@);
        }
    } else {
        proof {
            assert(out@ =~= t@.insert(i as int, c));
        }
    }
    out
}

fn remove_char_exec(t: &Vec<char>, i: usize) -> (r: Vec<char>)
    ensures
        r@ == remove_char(t@, i as nat),
{
    let mut out: Vec<char> = Vec::new();
    let mut k: usize = 0;
    while k < t.len()
        invariant
            k <= t@.len(),
            k <= i ==> out@ == t@.take(k as int),
            k > i ==> out@ == t@.take(i as int) + t@.subrange(i + 1, k as int),
        decreases t@.len() - k,
    {
        if k != i {
            out.push(t[k]);
        }
        proof {
            if k + 1 <= i {
                assert(out@ =~= t@.take(k + 1));
            } else {
                assert(out@ =~= t@.take(i as int) + t@.subrange(i + 1, k + 1));
            }
        }
        k += 1;
    }
    proof {
        if i >= t@.len() {
            assert(t@.take(t@.len() as int) =~= t@);
        } else {
            assert(out@ =~= t@.remove(i as int));
        }
    }
    out
}

/// The slots an answer offers for editing, left to right: the paths of its
/// empty, numeric and raw-text nodes below `prefix`.
pub open spec fn editable_paths(v: AnswerValue, prefix: Seq<usize>) -> Seq<Seq<usize>>
    decreases v, 0nat,
{
    match v {
        AnswerValue::Empty | AnswerValue::Integer(_) | AnswerValue::ExactDecimal { .. } | AnswerValue::NanError(
            _,
        ) => seq![prefix],
        AnswerValue::Fraction { numerator, denominator } => editable_paths(*numerator, prefix.push(0))
            + editable_paths(*denominator, prefix.push(1)),
        AnswerValue::MixedFraction { whole, numerator, denominator } => editable_paths(*whole, prefix.push(0))
            + editable_paths(*numerator, prefix.push(1)) + editable_paths(*denominator, prefix.push(2)),
        AnswerValue::Root { radicand, index } => editable_paths(*radicand, prefix.push(0)) + match index {
            Some(i) => editable_paths(*i, prefix.push(1)),
            None => Seq::empty(),
        },
        AnswerValue::Negative(x) => editable_paths(*x, prefix.push(0)),
        AnswerValue::PlusMinus(x) => editable_paths(*x, prefix.push(0)),
        AnswerValue::Tuple(vs) => item_paths(vs, prefix, 0),
        _ => Seq::empty(),
    }
}

/// The editable slots of the tuple items from position `k` on.
pub open spec fn item_paths(vs: Seq<AnswerValue>, prefix: Seq<usize>, k: nat) -> Seq<Seq<usize>>
    decreases vs, vs.len() - k,
{
    if k >= vs.len() || k > usize::MAX {
        Seq::empty()
    } else {
        editable_paths(vs[k as int], prefix.push(k as usize)) + item_paths(vs, prefix, k + 1)
    }
}

/// The paths a list of paths holds.
pub open spec fn path_list(out: Seq<Vec<usize>>) -> Seq<Seq<usize>> {
    out.map_values(|p: Vec<usize>| p@)
}

fn copy_path(p: &Vec<usize>) -> (r: Vec<usize>)
    ensures
        r@ == p@,
{
    let mut out: Vec<usize> = Vec::new();
    let mut k: usize = 0;
    while k < p.len()
        invariant
            k <= p@.len(),
            out@ == p@.take(k as int),
        decreases p@.len() - k,
    {
        out.push(p[k]);
        proof {
            assert(out@ =~= p@.take(k + 1));
        }
        k += 1;
    }
    proof {
        assert(p@.take(p@.len() as int) =~= p@);
    }
    out
}

fn collect_child(answer: &AnswerNode, index: usize, path: &mut Vec<usize>, out: &mut Vec<Vec<usize>>)
    ensures
        final(path)@ == old(path)@,
        path_list(final(out)@) == path_list(old(out)@) + editable_paths(answer@, old(path)@.push(index)),
    decreases answer, 2nat,
{
    path.push(index);
    collect_paths(answer, path, out);
    path.pop();
    proof {
        assert(path@ =~= old(path)@);
    }
}

fn collect_paths(answer: &AnswerNode, path: &mut Vec<usize>, out: &mut Vec<Vec<usize>>)
    ensures
        final(path)@ == old(path)@,
        path_list(final(out)@) == path_list(old(out)@) + editable_paths(answer@, old(path)@),
    decreases answer, 1nat,
{
    let ghost before = path_list(out@);
    match answer {
        AnswerNode::Empty | AnswerNode::Integer(_) | AnswerNode::ExactDecimal { .. } | AnswerNode::NanError(_) => {
            out.push(copy_path(path));
            proof {
                assert(path_list(out@) =~= before + seq![path@]);
            }
        },
        AnswerNode::Fraction { numerator, denominator } => {
            collect_child(numerator, 0, path, out);
            collect_child(denominator, 1, path, out);
            proof {
                assert(path_list(out@) =~= before + (editable_paths(numerator@, path@.push(0)) + editable_paths(
                    denominator@,
                    path@.push(1),
                )));
            }
        },
        AnswerNode::MixedFraction { whole, numerator, denominator } => {
            collect_child(whole, 0, path, out);
            collect_child(numerator, 1, path, out);
            collect_child(denominator, 2, path, out);
            proof {
                assert(path_list(out@) =~= before + (editable_paths(whole@, path@.push(0)) + editable_paths(
                    numerator@,
                    path@.push(1),
                ) + editable_paths(denominator@, path@.push(2))));
            }
        },
        AnswerNode::Root { radicand, index } => {
            collect_child(radicand, 0, path, out);
            match index {
                Some(i) => {
                    collect_child(i, 1, path, out);
                    proof {
                        assert(path_list(out@) =~= before + (editable_paths(radicand@, path@.push(0)) + editable_paths(
                            i@,
                            path@.push(1),
                        )));
                    }
                },
                None => {
                    proof {
                        assert(path_list(out@) =~= before + (editable_paths(radicand@, path@.push(0))
                            + Seq::<Seq<usize>>::empty()));
                    }
                },
            }
        },
        AnswerNode::Negative(x) => {
            collect_child(x, 0, path, out);
        },
        AnswerNode::PlusMinus(x) => {
            collect_child(x, 0, path, out);
        },
        AnswerNode::Tuple(vs) => {
            let ghost items = view_nodes(vs@, vs@.len());
            proof {
                lemma_view_nodes(vs@, vs@.len());
            }
            let mut k: usize = 0;
            while k < vs.len()
                invariant
                    k <= vs@.len(),
                    items == view_nodes(vs@, vs@.len()),
                    items.len() == vs@.len(),
                    forall|j: int| 0 <= j < vs@.len() ==> #[trigger] items[j] == vs@[j]@,
                    path@ == old(path)@,
                    *answer == AnswerNode::Tuple(*vs),
                    path_list(out@) + item_paths(items, path@, k as nat) == before + item_paths(items, path@, 0),
                decreases vs@.len() - k,
            {
                proof {
                    let ghost v = *vs;
                    assert(decreases_to!(*answer => (*answer)->Tuple_0));
                    assert(decreases_to!(v => v@));
                    assert(decreases_to!(v@ => v@[k as int]));
                }
                let ghost mid = path_list(out@);
                collect_child(&vs[k], k, path, out);
                proof {
                    assert(mid + (editable_paths(items[k as int], path@.push(k)) + item_paths(items, path@, (k + 1) as nat))
                        =~= path_list(out@) + item_paths(items, path@, (k + 1) as nat));
                }
                k += 1;
            }
            proof {
                assert(path_list(out@) + Seq::<Seq<usize>>::empty() =~= path_list(out@));
            }
        },
        _ => {
            proof {
                assert(path_list(out@) =~= before + Seq::<Seq<usize>>::empty());
            }
        },
    }
}

/// An editor snapshot: the answer tree, the path to the active slot, the
/// cursor within the slot's draft text, and whether the answer was
/// committed.
#[derive(Debug, PartialEq, Eq)]
pub struct EditorState {
    pub answer: AnswerNode,
    pub active_path: Vec<usize>,
    pub cursor: usize,
    pub committed: bool,
}

/// One typed editing action.
#[derive(Debug, PartialEq, Eq)]
pub enum EditorAction {
    InsertDigit { digit: u8 },
    Backspace,
    Delete,
    MoveLeft,
    MoveRight,
    InsertStructure { structure: EditorStructure },
    SelectSlot { path: Vec<usize>, cursor: usize },
    Clear,
    Commit,
}

/// The model of an editor snapshot.
pub struct EditorModel {
    pub answer: AnswerValue,
    pub path: Seq<usize>,
    pub cursor: nat,
    pub committed: bool,
}

impl View for EditorState {
    type V = EditorModel;

    open spec fn view(&self) -> EditorModel {
        EditorModel {
            answer: self.answer@,
            path: self.active_path@,
            cursor: self.cursor as nat,
            committed: self.committed,
        }
    }
}

/// The empty editor: an empty answer, the root slot active, the cursor at
/// its start, nothing committed.
pub open spec fn empty_model() -> EditorModel {
    EditorModel { answer: AnswerValue::Empty, path: Seq::empty(), cursor: 0, committed: false }
}

impl EditorState {
    pub fn empty() -> (r: Self)
        ensures
            r@ == empty_model(),
    {
        EditorState { answer: AnswerNode::Empty, active_path: Vec::new(), cursor: 0, committed: false }
    }
}

/// The draft text of the slot at `path`; any failure is an invalid path.
pub open spec fn editable_text_at(v: AnswerValue, path: Seq<usize>) -> Result<Seq<char>, EditorError> {
    match node_at(v, path) {
        None => Err(EditorError::InvalidPath),
        Some(n) => match draft_text(n) {
            Ok(t) => Ok(t),
            Err(_) => Err(EditorError::InvalidPath),
        },
    }
}

/// Whether `cursor` lies within the draft text of the slot at `path`.
pub open spec fn position_check(v: AnswerValue, path: Seq<usize>, cursor: nat) -> Result<(), EditorError> {
    match editable_text_at(v, path) {
        Err(e) => Err(e),
        Ok(t) => if cursor <= t.len() {
            Ok(())
        } else {
            Err(EditorError::InvalidPath)
        },
    }
}

/// A change of the active slot's text.
pub enum TextEdit {
    Insert(char),
    EraseBefore,
    EraseAt,
}

/// The text and cursor after an edit: insertion moves the cursor past the
/// new character; erasing before the cursor moves it back; nothing is
/// erased before the start or at the end.
pub open spec fn text_after(edit: TextEdit, text: Seq<char>, cursor: nat) -> (Seq<char>, nat) {
    match edit {
        TextEdit::Insert(c) => (insert_char(text, cursor, c), cursor + 1),
        TextEdit::EraseBefore => if cursor == 0 {
            (text, cursor)
        } else {
            (remove_char(text, (cursor - 1) as nat), (cursor - 1) as nat)
        },
        TextEdit::EraseAt => if cursor >= text.len() {
            (text, cursor)
        } else {
            (remove_char(text, cursor), cursor)
        },
    }
}

/// A new answer committed to the snapshot, once it passes the size limit
/// and the input capability.
pub open spec fn checked_answer(a: AnswerValue, i: AnswerInputInterface) -> Result<(), EditorError> {
    match size_check(a) {
        Err(e) => Err(e),
        Ok(_) => capability_check(a, i),
    }
}

/// Edits the active slot's text and parses it back into the slot. Raw text
/// that already was raw stays raw when its parse would break the
/// capability.
pub open spec fn edit_active(m: EditorModel, edit: TextEdit, i: AnswerInputInterface) -> Result<EditorModel, EditorError> {
    match node_at(m.answer, m.path) {
        None => Err(EditorError::InvalidPath),
        Some(current) => match draft_text(current) {
            Err(e) => Err(e),
            Ok(text) => {
                let (t, c) = text_after(edit, text, m.cursor);
                match answer_from_draft(t, c) {
                    Err(e) => Err(e),
                    Ok((node, nc)) => {
                        let keep_raw = capability_check(node, i) is Err && current is NanError;
                        let slot = if keep_raw {
                            AnswerValue::NanError(t)
                        } else {
                            node
                        };
                        let cursor = if keep_raw {
                            c
                        } else {
                            nc
                        };
                        match replace_at(m.answer, m.path, slot) {
                            None => Err(EditorError::InvalidPath),
                            Some(a) => match checked_answer(a, i) {
                                Err(e) => Err(e),
                                Ok(_) => Ok(EditorModel { answer: a, path: m.path, cursor, committed: false }),
                            },
                        }
                    },
                }
            },
        }
    }
}

/// Backspace: an empty slot below the root removes the whole answer;
/// otherwise the character before the cursor is erased.
pub open spec fn backspace_step(m: EditorModel, i: AnswerInputInterface) -> Result<EditorModel, EditorError> {
    match node_at(m.answer, m.path) {
        None => Err(EditorError::InvalidPath),
        Some(current) => match draft_text(current) {
            Err(e) => Err(e),
            Ok(text) => if text.len() == 0 && m.cursor == 0 && m.path.len() > 0 {
                Ok(empty_model())
            } else {
                edit_active(m, TextEdit::EraseBefore, i)
            },
        },
    }
}

/// The first position of `p` in `ps`.
pub open spec fn position_of(ps: Seq<Seq<usize>>, p: Seq<usize>) -> Option<nat>
    decreases ps.len(),
{
    if ps.len() == 0 {
        None
    } else if ps[0] == p {
        Some(0)
    } else {
        match position_of(ps.drop_first(), p) {
            Some(k) => Some(k + 1),
            None => None,
        }
    }
}

/// Moves the cursor one character, or across to the neighbouring slot
/// (at its start going right, its end going left); at either end of the
/// answer nothing moves.
pub open spec fn move_step(m: EditorModel, right: bool) -> Result<EditorModel, EditorError> {
    match node_at(m.answer, m.path) {
        None => Err(EditorError::InvalidPath),
        Some(current) => match draft_text(current) {
            Err(e) => Err(e),
            Ok(text) => if right && m.cursor < text.len() {
                Ok(EditorModel { cursor: m.cursor + 1, ..m })
            } else if !right && m.cursor > 0 {
                Ok(EditorModel { cursor: (m.cursor - 1) as nat, ..m })
            } else {
                let paths = editable_paths(m.answer, Seq::empty());
                match position_of(paths, m.path) {
                    None => Err(EditorError::InvalidPath),
                    Some(k) => {
                        let target: Option<nat> = if right {
                            if k + 1 < paths.len() {
                                Some(k + 1)
                            } else {
                                None
                            }
                        } else if k >= 1 {
                            Some((k - 1) as nat)
                        } else {
                            None
                        };
                        match target {
                            None => Ok(m),
                            Some(t) => match node_at(m.answer, paths[t as int]) {
                                None => Err(EditorError::InvalidPath),
                                Some(n) => match draft_text(n) {
                                    Err(e) => Err(e),
                                    Ok(tt) => Ok(
                                        EditorModel {
                                            path: paths[t as int],
                                            cursor: if right {
                                                0
                                            } else {
                                                tt.len()
                                            },
                                            ..m
                                        },
                                    ),
                                },
                            },
                        }
                    },
                }
            },
        },
    }
}

/// Replaces the active slot by the answer a draft text stands for.
pub open spec fn replace_draft(m: EditorModel, t: Seq<char>, cursor: nat, i: AnswerInputInterface) -> Result<
    EditorModel,
    EditorError,
> {
    match answer_from_draft(t, cursor) {
        Err(e) => Err(e),
        Ok((node, nc)) => match replace_at(m.answer, m.path, node) {
            None => Err(EditorError::InvalidPath),
            Some(a) => match checked_answer(a, i) {
                Err(e) => Err(e),
                Ok(_) => Ok(EditorModel { answer: a, path: m.path, cursor: nc, committed: false }),
            },
        },
    }
}

/// The position of the first point of a text, if any.
pub open spec fn point_in(t: Seq<char>) -> Option<nat> {
    if first_point(t) < t.len() {
        Some(first_point(t))
    } else {
        None
    }
}

/// A decimal point: with one already, the cursor moves just past it; an
/// empty slot becomes `0.`; otherwise a point goes in at the cursor.
pub open spec fn decimal_point_step(m: EditorModel, i: AnswerInputInterface) -> Result<EditorModel, EditorError> {
    match node_at(m.answer, m.path) {
        None => Err(EditorError::InvalidPath),
        Some(current) => match draft_text(current) {
            Err(e) => Err(e),
            Ok(text) => match point_in(text) {
                Some(p) => Ok(EditorModel { cursor: p + 1, ..m }),
                None => if text.len() == 0 {
                    replace_draft(m, seq!['0', '.'], 2, i)
                } else {
                    replace_draft(m, insert_char(text, m.cursor, '.'), m.cursor + 1, i)
                },
            },
        },
    }
}

/// A new tuple item: appended to a tuple, or a tuple of two made from an
/// empty or a single answer; the new, empty item becomes active.
pub open spec fn tuple_item_step(m: EditorModel, i: AnswerInputInterface) -> Result<EditorModel, EditorError> {
    let (candidate, index): (AnswerValue, nat) = match m.answer {
        AnswerValue::Tuple(vs) => (AnswerValue::Tuple(vs.push(AnswerValue::Empty)), vs.len()),
        AnswerValue::Empty => (AnswerValue::Tuple(seq![AnswerValue::Empty, AnswerValue::Empty]), 1),
        other => (AnswerValue::Tuple(seq![other, AnswerValue::Empty]), 1),
    };
    match checked_answer(candidate, i) {
        Err(e) => Err(e),
        Ok(_) => Ok(EditorModel { answer: candidate, path: seq![index as usize], cursor: 0, committed: false }),
    }
}

/// The node a structure makes around a slot, and which of its children
/// becomes active: a fraction or mixed fraction takes a nonempty slot as
/// its first part and activates the next, empty part; a root, negation or
/// plus-minus wraps the slot. There is no template for other structures.
pub open spec fn shaped_structure(current: AnswerValue, structure: EditorStructure) -> Option<(AnswerValue, usize)> {
    let empty = current is Empty;
    let first = if empty {
        AnswerValue::Empty
    } else {
        current
    };
    let next_index: usize = if empty {
        0
    } else {
        1
    };
    match structure {
        EditorStructure::Fraction => Some(
            (AnswerValue::Fraction { numerator: Box::new(first), denominator: Box::new(AnswerValue::Empty) }, next_index),
        ),
        EditorStructure::MixedFraction => Some(
            (
                AnswerValue::MixedFraction {
                    whole: Box::new(first),
                    numerator: Box::new(AnswerValue::Empty),
                    denominator: Box::new(AnswerValue::Empty),
                },
                next_index,
            ),
        ),
        EditorStructure::Root => Some((AnswerValue::Root { radicand: Box::new(current), index: None }, 0usize)),
        EditorStructure::Negative => Some((AnswerValue::Negative(Box::new(current)), 0usize)),
        EditorStructure::PlusMinus => Some((AnswerValue::PlusMinus(Box::new(current)), 0usize)),
        _ => None,
    }
}

/// A structure put around the active slot (a fraction or mixed fraction
/// takes a nonempty slot as its first part and activates the next empty
/// part); the cursor goes to the end of the newly active slot.
pub open spec fn structure_step(m: EditorModel, structure: EditorStructure, i: AnswerInputInterface) -> Result<
    EditorModel,
    EditorError,
> {
    if structure == EditorStructure::Tuple {
        tuple_item_step(m, i)
    } else if structure == EditorStructure::Decimal {
        decimal_point_step(m, i)
    } else {
        match node_at(m.answer, m.path) {
            None => Err(EditorError::InvalidPath),
            Some(current) => {
                let shaped = shaped_structure(current, structure);
                match shaped {
                    None => Err(EditorError::StructureNotAllowed { structure }),
                    Some((replacement, child)) => match replace_at(m.answer, m.path, replacement) {
                        None => Err(EditorError::InvalidPath),
                        Some(a) => match checked_answer(a, i) {
                            Err(e) => Err(e),
                            Ok(_) => match node_at(a, m.path.push(child)) {
                                None => Err(EditorError::InvalidPath),
                                Some(n) => match draft_text(n) {
                                    Err(e) => Err(e),
                                    Ok(t) => Ok(
                                        EditorModel {
                                            answer: a,
                                            path: m.path.push(child),
                                            cursor: t.len(),
                                            committed: false,
                                        },
                                    ),
                                },
                            },
                        },
                    },
                }
            },
        }
    }
}

/// The step an action takes from a snapshot that has been checked.
pub open spec fn action_step(m: EditorModel, action: EditorAction, i: AnswerInputInterface) -> Result<
    EditorModel,
    EditorError,
> {
    match action {
        EditorAction::InsertDigit { digit } => if digit > 9 {
            Err(EditorError::InvalidDigit)
        } else {
            edit_active(m, TextEdit::Insert(digit_char(digit as nat)), i)
        },
        EditorAction::Backspace => backspace_step(m, i),
        EditorAction::Delete => edit_active(m, TextEdit::EraseAt, i),
        EditorAction::MoveLeft => move_step(m, false),
        EditorAction::MoveRight => move_step(m, true),
        EditorAction::InsertStructure { structure } => if !i.allows(structure) {
            Err(EditorError::StructureNotAllowed { structure })
        } else {
            structure_step(m, structure, i)
        },
        EditorAction::Commit => Ok(EditorModel { committed: true, ..m }),
        _ => Ok(m),
    }
}

/// What an action does to a snapshot under an input interface. `Clear`
/// always empties the editor. Otherwise the snapshot must be within the
/// size limit and the capability, with a valid slot and cursor; selecting
/// a slot moves there; every other action steps the snapshot, and its
/// result must pass the same checks.
pub open spec fn editor_transition(m: EditorModel, action: EditorAction, i: AnswerInputInterface) -> Result<
    EditorModel,
    EditorError,
> {
    if action is Clear {
        Ok(empty_model())
    } else {
        match checked_answer(m.answer, i) {
            Err(e) => Err(e),
            Ok(_) => match position_check(m.answer, m.path, m.cursor) {
                Err(e) => Err(e),
                Ok(_) => match action {
                    EditorAction::SelectSlot { path, cursor } => match editable_text_at(m.answer, path@) {
                        Err(e) => Err(e),
                        Ok(t) => if cursor <= t.len() {
                            Ok(EditorModel { path: path@, cursor: cursor as nat, ..m })
                        } else {
                            Err(EditorError::InvalidPath)
                        },
                    },
                    _ => match action_step(m, action, i) {
                        Err(e) => Err(e),
                        Ok(n) => match checked_answer(n.answer, i) {
                            Err(e) => Err(e),
                            Ok(_) => match position_check(n.answer, n.path, n.cursor) {
                                Err(e) => Err(e),
                                Ok(_) => Ok(n),
                            },
                        },
                    },
                },
            },
        }
    }
}

/// A step's result as the specification states it.
pub open spec fn state_view(r: Result<EditorState, EditorError>) -> Result<EditorModel, EditorError> {
    match r {
        Ok(n) => Ok(n@),
        Err(e) => Err(e),
    }
}

fn editable_text_at_exec(answer: &AnswerNode, path: &Vec<usize>) -> (r: Result<Vec<char>, EditorError>)
    ensures
        match editable_text_at(answer@, path@) {
            Ok(t) => r matches Ok(v) && v@ == t,
            Err(e) => r == Err::<Vec<char>, EditorError>(e),
        },
{
    match node_at_exec(answer, path) {
        None => Err(EditorError::InvalidPath),
        Some(n) => match draft_text_exec(n) {
            Ok(t) => Ok(t),
            Err(_) => Err(EditorError::InvalidPath),
        },
    }
}

fn position_check_exec(answer: &AnswerNode, path: &Vec<usize>, cursor: usize) -> (r: Result<(), EditorError>)
    ensures
        r == position_check(answer@, path@, cursor as nat),
{
    match editable_text_at_exec(answer, path) {
        Err(e) => Err(e),
        Ok(t) => if cursor <= t.len() {
            Ok(())
        } else {
            Err(EditorError::InvalidPath)
        },
    }
}

fn checked_answer_exec(answer: &AnswerNode, i: &AnswerInputInterface) -> (r: Result<(), EditorError>)
    ensures
        r == checked_answer(answer@, *i),
{
    match size_check_exec(answer) {
        Err(e) => Err(e),
        Ok(()) => ensure_capability(answer, i),
    }
}

fn text_after_exec(edit: &TextEdit, text: &Vec<char>, cursor: usize) -> (r: (Vec<char>, usize))
    requires
        cursor < usize::MAX,
    ensures
        (r.0@, r.1 as nat) == text_after(*edit, text@, cursor as nat),
{
    match edit {
        TextEdit::Insert(c) => (insert_char_exec(text, cursor, *c), cursor + 1),
        TextEdit::EraseBefore => if cursor == 0 {
            (copy_chars(text), cursor)
        } else {
            (remove_char_exec(text, cursor - 1), cursor - 1)
        },
        TextEdit::EraseAt => if cursor >= text.len() {
            (copy_chars(text), cursor)
        } else {
            (remove_char_exec(text, cursor), cursor)
        },
    }
}

fn copy_chars(t: &Vec<char>) -> (r: Vec<char>)
    ensures
        r@ == t@,
{
    let mut out: Vec<char> = Vec::new();
    let mut k: usize = 0;
    while k < t.len()
        invariant
            k <= t@.len(),
            out@ == t@.take(k as int),
        decreases t@.len() - k,
    {
        out.push(t[k]);
        proof {
            assert(out@ =~= t@.take(k + 1));
        }
        k += 1;
    }
    proof {
        assert(t@.take(t@.len() as int) =~= t@);
    }
    out
}

fn with_answer(state: &EditorState, answer: AnswerNode, cursor: usize) -> (r: EditorState)
    ensures
        r@ == (EditorModel { answer: answer@, path: state@.path, cursor: cursor as nat, committed: false }),
{
    EditorState { answer, active_path: copy_path(&state.active_path), cursor, committed: false }
}

fn edit_active_exec(state: &EditorState, edit: TextEdit, i: &AnswerInputInterface) -> (r: Result<EditorState, EditorError>)
    requires
        state.cursor < usize::MAX,
    ensures
        state_view(r) == edit_active(state@, edit, *i),
{
    let current = match node_at_exec(&state.answer, &state.active_path) {
        None => {
            return Err(EditorError::InvalidPath);
        },
        Some(c) => c,
    };
    let text = match draft_text_exec(current) {
        Err(e) => {
            return Err(e);
        },
        Ok(t) => t,
    };
    let (t, c) = text_after_exec(&edit, &text, state.cursor);
    let (node, nc) = match answer_from_draft_exec(&t, c) {
        Err(e) => {
            return Err(e);
        },
        Ok(p) => p,
    };
    let raw_before = match current {
        AnswerNode::NanError(_) => true,
        _ => false,
    };
    let keep_raw = ensure_capability(&node, i).is_err() && raw_before;
    let (slot, cursor) = if keep_raw {
        (AnswerNode::NanError(string_from_chars(t.as_slice())), c)
    } else {
        (node, nc)
    };
    proof {
        assert(state.active_path@.skip(0) =~= state.active_path@);
    }
    let a = match replace_at_exec(&state.answer, &state.active_path, 0, slot) {
        None => {
            return Err(EditorError::InvalidPath);
        },
        Some(a) => a,
    };
    match checked_answer_exec(&a, i) {
        Err(e) => Err(e),
        Ok(()) => Ok(with_answer(state, a, cursor)),
    }
}

fn backspace_exec(state: &EditorState, i: &AnswerInputInterface) -> (r: Result<EditorState, EditorError>)
    requires
        state.cursor < usize::MAX,
    ensures
        state_view(r) == backspace_step(state@, *i),
{
    let current = match node_at_exec(&state.answer, &state.active_path) {
        None => {
            return Err(EditorError::InvalidPath);
        },
        Some(c) => c,
    };
    let text = match draft_text_exec(current) {
        Err(e) => {
            return Err(e);
        },
        Ok(t) => t,
    };
    if text.len() == 0 && state.cursor == 0 && state.active_path.len() > 0 {
        let r = EditorState::empty();
        proof {
            assert(r@ =~= empty_model());
        }
        return Ok(r);
    }
    edit_active_exec(state, TextEdit::EraseBefore, i)
}

fn position_of_exec(ps: &Vec<Vec<usize>>, p: &Vec<usize>) -> (r: Option<usize>)
    ensures
        match position_of(path_list(ps@), p@) {
            Some(k) => r == Some(k as usize),
            None => r is None,
        },
{
    let mut k: usize = 0;
    proof {
        assert(path_list(ps@).skip(0) =~= path_list(ps@));
    }
    while k < ps.len()
        invariant
            k <= ps@.len(),
            forall|j: int| 0 <= j < k ==> path_list(ps@)[j] != p@,
            position_of(path_list(ps@), p@) == match position_of(path_list(ps@).skip(k as int), p@) {
                Some(m) => Some((m + k) as nat),
                None => None::<nat>,
            },
        decreases ps@.len() - k,
    {
        proof {
            assert(path_list(ps@).skip(k as int).drop_first() =~= path_list(ps@).skip(k + 1));
            assert(path_list(ps@).skip(k as int)[0] == ps@[k as int]@);
        }
        if same_path(&ps[k], p) {
            return Some(k);
        }
        k += 1;
    }
    proof {
        assert(path_list(ps@).skip(k as int) =~= Seq::<Seq<usize>>::empty());
    }
    None
}

fn same_path(a: &Vec<usize>, b: &Vec<usize>) -> (r: bool)
    ensures
        r == (a@ == b@),
{
    if a.len() != b.len() {
        return false;
    }
    let mut k: usize = 0;
    while k < a.len()
        invariant
            k <= a@.len(),
            a@.len() == b@.len(),
            forall|j: int| 0 <= j < k ==> a@[j] == b@[j],
        decreases a@.len() - k,
    {
        if a[k] != b[k] {
            return false;
        }
        k += 1;
    }
    proof {
        assert(a@ =~= b@);
    }
    true
}

fn move_exec(state: &EditorState, right: bool) -> (r: Result<EditorState, EditorError>)
    requires
        state.cursor < usize::MAX,
    ensures
        state_view(r) == move_step(state@, right),
{
    let current = match node_at_exec(&state.answer, &state.active_path) {
        None => {
            return Err(EditorError::InvalidPath);
        },
        Some(c) => c,
    };
    let text = match draft_text_exec(current) {
        Err(e) => {
            return Err(e);
        },
        Ok(t) => t,
    };
    if right && state.cursor < text.len() {
        return Ok(
            EditorState {
                answer: state.answer.duplicate(),
                active_path: copy_path(&state.active_path),
                cursor: state.cursor + 1,
                committed: state.committed,
            },
        );
    }
    if !right && state.cursor > 0 {
        return Ok(
            EditorState {
                answer: state.answer.duplicate(),
                active_path: copy_path(&state.active_path),
                cursor: state.cursor - 1,
                committed: state.committed,
            },
        );
    }
    let mut paths: Vec<Vec<usize>> = Vec::new();
    let mut root: Vec<usize> = Vec::new();
    collect_paths(&state.answer, &mut root, &mut paths);
    proof {
        assert(root@ =~= Seq::<usize>::empty());
        assert(path_list(paths@) =~= editable_paths(state.answer@, Seq::empty()));
    }
    let k = match position_of_exec(&paths, &state.active_path) {
        None => {
            return Err(EditorError::InvalidPath);
        },
        Some(k) => k,
    };
    proof {
        lemma_position_of_bound(path_list(paths@), state.active_path@);
        assert(k < paths@.len());
    }
    let ghost plist = path_list(paths@);
    let target: Option<usize> = if right {
        if k + 1 < paths.len() {
            Some(k + 1)
        } else {
            None
        }
    } else if k >= 1 {
        Some(k - 1)
    } else {
        None
    };
    match target {
        None => Ok(
            EditorState {
                answer: state.answer.duplicate(),
                active_path: copy_path(&state.active_path),
                cursor: state.cursor,
                committed: state.committed,
            },
        ),
        Some(t) => {
            let new_path = copy_path(&paths[t]);
            proof {
                assert(plist[t as int] == paths@[t as int]@);
                assert(new_path@ == plist[t as int]);
            }
            let n = match node_at_exec(&state.answer, &new_path) {
                None => {
                    return Err(EditorError::InvalidPath);
                },
                Some(n) => n,
            };
            let tt = match draft_text_exec(n) {
                Err(e) => {
                    return Err(e);
                },
                Ok(tt) => tt,
            };
            let cursor = if right {
                0
            } else {
                tt.len()
            };
            Ok(EditorState { answer: state.answer.duplicate(), active_path: new_path, cursor, committed: state.committed })
        },
    }
}

proof fn lemma_position_of_bound(ps: Seq<Seq<usize>>, p: Seq<usize>)
    ensures
        position_of(ps, p) matches Some(k) ==> k < ps.len(),
    decreases ps.len(),
{
    if ps.len() > 0 && ps[0] != p {
        lemma_position_of_bound(ps.drop_first(), p);
    }
}

fn replace_draft_exec(state: &EditorState, t: &Vec<char>, cursor: usize, i: &AnswerInputInterface) -> (r: Result<
    EditorState,
    EditorError,
>)
    ensures
        state_view(r) == replace_draft(state@, t@, cursor as nat, *i),
{
    let (node, nc) = match answer_from_draft_exec(t, cursor) {
        Err(e) => {
            return Err(e);
        },
        Ok(p) => p,
    };
    proof {
        assert(state.active_path@.skip(0) =~= state.active_path@);
    }
    let a = match replace_at_exec(&state.answer, &state.active_path, 0, node) {
        None => {
            return Err(EditorError::InvalidPath);
        },
        Some(a) => a,
    };
    match checked_answer_exec(&a, i) {
        Err(e) => Err(e),
        Ok(()) => Ok(with_answer(state, a, nc)),
    }
}

fn point_in_exec(t: &Vec<char>) -> (r: Option<usize>)
    ensures
        match point_in(t@) {
            Some(p) => r == Some(p as usize),
            None => r is None,
        },
{
    let mut k: usize = 0;
    while k < t.len()
        invariant
            k <= t@.len(),
            forall|j: int| 0 <= j < k ==> #[trigger] t@[j] != '.',
        decreases t@.len() - k,
    {
        if t[k] == '.' {
            proof {
                lemma_first_point(t@, k as int);
            }
            return Some(k);
        }
        k += 1;
    }
    proof {
        lemma_first_point(t@, t@.len() as int);
    }
    None
}

fn decimal_point_exec(state: &EditorState, i: &AnswerInputInterface) -> (r: Result<EditorState, EditorError>)
    requires
        state.cursor < usize::MAX,
    ensures
        state_view(r) == decimal_point_step(state@, *i),
{
    let current = match node_at_exec(&state.answer, &state.active_path) {
        None => {
            return Err(EditorError::InvalidPath);
        },
        Some(c) => c,
    };
    let text = match draft_text_exec(current) {
        Err(e) => {
            return Err(e);
        },
        Ok(t) => t,
    };
    match point_in_exec(&text) {
        Some(p) => {
            proof {
                lemma_first_point_bound(text@);
            }
            Ok(
                EditorState {
                    answer: state.answer.duplicate(),
                    active_path: copy_path(&state.active_path),
                    cursor: p + 1,
                    committed: state.committed,
                },
            )
        },
        None => if text.len() == 0 {
            let zero_point = vec!['0', '.'];
            proof {
                assert(zero_point@ =~= seq!['0', '.']);
            }
            replace_draft_exec(state, &zero_point, 2, i)
        } else {
            let t = insert_char_exec(&text, state.cursor, '.');
            replace_draft_exec(state, &t, state.cursor + 1, i)
        },
    }
}

proof fn lemma_first_point_bound(t: Seq<char>)
    ensures
        first_point(t) <= t.len(),
    decreases t.len(),
{
    if t.len() > 0 && t[0] != '.' {
        lemma_first_point_bound(t.drop_first());
    }
}

fn tuple_item_exec(state: &EditorState, i: &AnswerInputInterface) -> (r: Result<EditorState, EditorError>)
    ensures
        state_view(r) == tuple_item_step(state@, *i),
{
    let (candidate, index) = match &state.answer {
        AnswerNode::Tuple(vs) => {
            proof {
                lemma_view_nodes(vs@, vs@.len());
            }
            let mut items = copy_nodes(vs);
            let n = items.len();
            items.push(AnswerNode::Empty);
            proof {
                let t = view_nodes(vs@, vs@.len()).push(AnswerValue::Empty);
                assert forall|j: int| 0 <= j < items@.len() implies #[trigger] items@[j]@ == t[j] by {}
                lemma_tuple_view_eq(items@, t);
            }
            (AnswerNode::Tuple(items), n)
        },
        AnswerNode::Empty => {
            let items = vec![AnswerNode::Empty, AnswerNode::Empty];
            proof {
                let t = seq![AnswerValue::Empty, AnswerValue::Empty];
                assert forall|j: int| 0 <= j < items@.len() implies #[trigger] items@[j]@ == t[j] by {}
                lemma_tuple_view_eq(items@, t);
            }
            (AnswerNode::Tuple(items), 1)
        },
        other => {
            let items = vec![other.duplicate(), AnswerNode::Empty];
            proof {
                let t = seq![other@, AnswerValue::Empty];
                assert forall|j: int| 0 <= j < items@.len() implies #[trigger] items@[j]@ == t[j] by {}
                lemma_tuple_view_eq(items@, t);
            }
            (AnswerNode::Tuple(items), 1)
        },
    };
    match checked_answer_exec(&candidate, i) {
        Err(e) => Err(e),
        Ok(()) => {
            let path = vec![index];
            proof {
                assert(path@ =~= seq![index]);
            }
            Ok(EditorState { answer: candidate, active_path: path, cursor: 0, committed: false })
        },
    }
}

fn shape_structure_exec(current: &AnswerNode, structure: EditorStructure) -> (r: Option<(AnswerNode, usize)>)
    ensures
        match shaped_structure(current@, structure) {
            Some((v, c)) => r matches Some((n, rc)) && n@ == v && rc == c,
            None => r is None,
        },
{
    let empty = match current {
        AnswerNode::Empty => true,
        _ => false,
    };
    let next_index: usize = if empty {
        0
    } else {
        1
    };
    let first = if empty {
        AnswerNode::Empty
    } else {
        current.duplicate()
    };
    proof {
        if !empty {
            assert(!(current@ is Empty));
        }
        assert(first@ == (if current@ is Empty {
            AnswerValue::Empty
        } else {
            current@
        }));
        assert(next_index == (if current@ is Empty { 0usize } else { 1usize }));
    }
    match structure {
        EditorStructure::Fraction => {
            let node = AnswerNode::Fraction { numerator: Box::new(first), denominator: Box::new(AnswerNode::Empty) };
            proof {
                assert(node@ == AnswerValue::Fraction {
                    numerator: Box::new(first@),
                    denominator: Box::new(AnswerValue::Empty),
                });
            }
            Some((node, next_index))
        },
        EditorStructure::MixedFraction => Some(
            (
                AnswerNode::MixedFraction {
                    whole: Box::new(first),
                    numerator: Box::new(AnswerNode::Empty),
                    denominator: Box::new(AnswerNode::Empty),
                },
                next_index,
            ),
        ),
        EditorStructure::Root => Some((AnswerNode::Root { radicand: Box::new(current.duplicate()), index: None }, 0)),
        EditorStructure::Negative => Some((AnswerNode::Negative(Box::new(current.duplicate())), 0)),
        EditorStructure::PlusMinus => Some((AnswerNode::PlusMinus(Box::new(current.duplicate())), 0)),
        _ => None,
    }
}

fn structure_exec(state: &EditorState, structure: EditorStructure, i: &AnswerInputInterface) -> (r: Result<
    EditorState,
    EditorError,
>)
    requires
        state.cursor < usize::MAX,
    ensures
        state_view(r) == structure_step(state@, structure, *i),
{
    if structure == EditorStructure::Tuple {
        return tuple_item_exec(state, i);
    }
    if structure == EditorStructure::Decimal {
        return decimal_point_exec(state, i);
    }
    let current = match node_at_exec(&state.answer, &state.active_path) {
        None => {
            return Err(EditorError::InvalidPath);
        },
        Some(c) => c,
    };
    let (replacement, child) = match shape_structure_exec(current, structure) {
        None => {
            return Err(EditorError::StructureNotAllowed { structure });
        },
        Some(p) => p,
    };
    proof {
        assert(state.active_path@.skip(0) =~= state.active_path@);
    }
    let a = match replace_at_exec(&state.answer, &state.active_path, 0, replacement) {
        None => {
            return Err(EditorError::InvalidPath);
        },
        Some(a) => a,
    };
    match checked_answer_exec(&a, i) {
        Err(e) => {
            return Err(e);
        },
        Ok(()) => {},
    }
    let mut path = copy_path(&state.active_path);
    path.push(child);
    let n = match node_at_exec(&a, &path) {
        None => {
            return Err(EditorError::InvalidPath);
        },
        Some(n) => n,
    };
    let t = match draft_text_exec(n) {
        Err(e) => {
            return Err(e);
        },
        Ok(t) => t,
    };
    let cursor = t.len();
    Ok(EditorState { answer: a, active_path: path, cursor, committed: false })
}

/// Applies one editor action to a snapshot under an input interface (see
/// `editor_transition`).
pub fn apply_editor_action(state: &EditorState, action: &EditorAction, input_interface: &AnswerInputInterface) -> (r:
    Result<EditorState, EditorError>)
    ensures
        state_view(r) == editor_transition(state@, *action, *input_interface),
        *action is Clear ==> state_view(r) == Ok::<EditorModel, EditorError>(empty_model()),
        r matches Ok(n) ==> within_size_limit(n@.answer) && capability_check(n@.answer, *input_interface) is Ok
            && position_check(n@.answer, n@.path, n@.cursor) is Ok,
{
    if let EditorAction::Clear = action {
        return Ok(EditorState::empty());
    }
    match checked_answer_exec(&state.answer, input_interface) {
        Err(e) => {
            return Err(e);
        },
        Ok(()) => {},
    }
    match position_check_exec(&state.answer, &state.active_path, state.cursor) {
        Err(e) => {
            return Err(e);
        },
        Ok(()) => {},
    }
    proof {
        let text = editable_text_at(state.answer@, state.active_path@)->Ok_0;
        lemma_draft_text_short(node_at(state.answer@, state.active_path@)->Some_0);
        assert(state.cursor <= 20);
    }
    if let EditorAction::SelectSlot { path, cursor } = action {
        let text = match editable_text_at_exec(&state.answer, path) {
            Err(e) => {
                return Err(e);
            },
            Ok(t) => t,
        };
        if *cursor <= text.len() {
            let r = EditorState {
                answer: state.answer.duplicate(),
                active_path: copy_path(path),
                cursor: *cursor,
                committed: state.committed,
            };
            proof {
                lemma_draft_text_short(node_at(state.answer@, path@)->Some_0);
            }
            return Ok(r);
        } else {
            return Err(EditorError::InvalidPath);
        }
    }
    let stepped = match action {
        EditorAction::InsertDigit { digit } => if *digit > 9 {
            Err(EditorError::InvalidDigit)
        } else {
            let c = crate::text::digit_to_char(*digit as u64);
            edit_active_exec(state, TextEdit::Insert(c), input_interface)
        },
        EditorAction::Backspace => backspace_exec(state, input_interface),
        EditorAction::Delete => edit_active_exec(state, TextEdit::EraseAt, input_interface),
        EditorAction::MoveLeft => move_exec(state, false),
        EditorAction::MoveRight => move_exec(state, true),
        EditorAction::InsertStructure { structure } => if !input_interface.allows_structure(*structure) {
            Err(EditorError::StructureNotAllowed { structure: *structure })
        } else {
            structure_exec(state, *structure, input_interface)
        },
        EditorAction::Commit => Ok(
            EditorState {
                answer: state.answer.duplicate(),
                active_path: copy_path(&state.active_path),
                cursor: state.cursor,
                committed: true,
            },
        ),
        _ => Ok(
            EditorState {
                answer: state.answer.duplicate(),
                active_path: copy_path(&state.active_path),
                cursor: state.cursor,
                committed: state.committed,
            },
        ),
    };
    let next = match stepped {
        Err(e) => {
            return Err(e);
        },
        Ok(n) => n,
    };
    match checked_answer_exec(&next.answer, input_interface) {
        Err(e) => {
            return Err(e);
        },
        Ok(()) => {},
    }
    match position_check_exec(&next.answer, &next.active_path, next.cursor) {
        Err(e) => {
            return Err(e);
        },
        Ok(()) => {},
    }
    Ok(next)
}

} // verus!
