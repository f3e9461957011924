//! Curriculum safety: whether a problem's expressions, answers and input
//! capability keep clear of negative numbers, for themes of the years
//! before negative numbers are taught.

use vstd::prelude::*;
use crate::answer::{lemma_view_nodes, view_nodes, AnswerNode, AnswerValue};
use crate::model::{AnswerInputInterface, ArithmeticExpression, EditorStructure};
use crate::text::chars_of;

verus! {

/// The minus sign that typeset input may carry in place of a hyphen.
pub open spec fn typeset_minus() -> char {
    '\u{2212}'
}

/// An answer with no negative number in it: no negative leaf, no sign
/// node, and no minus sign in raw text.
pub open spec fn answer_non_negative(a: AnswerValue) -> bool
    decreases a, 0nat,
{
    match a {
        AnswerValue::Empty => true,
        AnswerValue::Integer(v) => v >= 0,
        AnswerValue::ExactDecimal { coefficient, .. } => coefficient >= 0,
        AnswerValue::NanError(raw) => !raw.contains('-') && !raw.contains(typeset_minus()),
        AnswerValue::Fraction { numerator, denominator } => answer_non_negative(*numerator) && answer_non_negative(
            *denominator,
        ),
        AnswerValue::MixedFraction { whole, numerator, denominator } => answer_non_negative(*whole)
            && answer_non_negative(*numerator) && answer_non_negative(*denominator),
        AnswerValue::Root { radicand, index } => answer_non_negative(*radicand) && match index {
            Some(i) => answer_non_negative(*i),
            None => true,
        },
        AnswerValue::Negative(_) | AnswerValue::PlusMinus(_) => false,
        AnswerValue::Binary { left, right, .. } => answer_non_negative(*left) && answer_non_negative(*right),
        AnswerValue::Tuple(vs) => answers_non_negative(vs, 0),
        AnswerValue::Variable(_) => true,
    }
}

/// The items of `vs` from position `k` on are free of negative numbers.
pub open spec fn answers_non_negative(vs: Seq<AnswerValue>, k: nat) -> bool
    decreases vs, vs.len() - k,
{
    if k >= vs.len() {
        true
    } else {
        answer_non_negative(vs[k as int]) && answers_non_negative(vs, k + 1)
    }
}

/// An expression whose leaves are all at least zero.
pub open spec fn expression_non_negative(e: ArithmeticExpression) -> bool
    decreases e,
{
    match e {
        ArithmeticExpression::Integer { value } => value >= 0,
        ArithmeticExpression::Rational { value } => value@.0 >= 0,
        ArithmeticExpression::ExactDecimal { coefficient, .. } => coefficient >= 0,
        ArithmeticExpression::Binary { left, right, .. } => expression_non_negative(*left)
            && expression_non_negative(*right),
    }
}

fn contains_char(cs: &Vec<char>, c: char) -> (r: bool)
    ensures
        r == cs@.contains(c),
{
    let mut i: usize = 0;
    while i < cs.len()
        invariant
            i <= cs@.len(),
            forall|j: int| 0 <= j < i ==> cs@[j] != c,
        decreases cs@.len() - i,
    {
        if cs[i] == c {
            proof {
                assert(cs@[i as int] == c);
            }
            return true;
        }
        i += 1;
    }
    false
}

/// Whether an answer is free of negative numbers.
pub fn answer_has_no_negative_values(answer: &AnswerNode) -> (r: bool)
    ensures
        r == answer_non_negative(answer@),
    decreases answer,
{
    match answer {
        AnswerNode::Empty => true,
        AnswerNode::Integer(value) => *value >= 0,
        AnswerNode::ExactDecimal { coefficient, .. } => *coefficient >= 0,
        AnswerNode::NanError(raw) => {
            let cs = chars_of(raw.as_str());
            !contains_char(&cs, '-') && !contains_char(&cs, '\u{2212}')
        },
        AnswerNode::Fraction { numerator, denominator } => answer_has_no_negative_values(numerator)
            && answer_has_no_negative_values(denominator),
        AnswerNode::MixedFraction { whole, numerator, denominator } => answer_has_no_negative_values(whole)
            && answer_has_no_negative_values(numerator) && answer_has_no_negative_values(denominator),
        AnswerNode::Root { radicand, index } => {
            if !answer_has_no_negative_values(radicand) {
                return false;
            }
            match index {
                Some(i) => answer_has_no_negative_values(i),
                None => true,
            }
        },
        AnswerNode::Negative(_) | AnswerNode::PlusMinus(_) => false,
        AnswerNode::Binary { left, right, .. } => answer_has_no_negative_values(left)
            && answer_has_no_negative_values(right),
        AnswerNode::Tuple(values) => {
            let ghost tv = view_nodes(values@, values@.len());
            proof {
                lemma_view_nodes(values@, values@.len());
                assert(answer@ == AnswerValue::Tuple(tv));
            }
            let mut k: usize = 0;
            while k < values.len()
                invariant
                    k <= values@.len(),
                    *answer == AnswerNode::Tuple(*values),
                    answer@ == AnswerValue::Tuple(tv),
                    tv.len() == values@.len(),
                    forall|j: int| 0 <= j < tv.len() ==> #[trigger] tv[j] == values@[j]@,
                    answers_non_negative(tv, 0) == answers_non_negative(tv, k as nat),
                decreases values@.len() - k,
            {
                proof {
                    let ghost v = *values;
                    assert(decreases_to!(*answer => (*answer)->Tuple_0));
                    assert(decreases_to!(v => v@));
                    assert(decreases_to!(v@ => v@[k as int]));
                    assert(tv[k as int] == values@[k as int]@);
                }
                if !answer_has_no_negative_values(&values[k]) {
                    return false;
                }
                k += 1;
            }
            true
        },
        AnswerNode::Variable(_) => true,
    }
}

/// Whether an expression's leaves are all at least zero.
pub fn expression_has_no_negative_values(expression: &ArithmeticExpression) -> (r: bool)
    ensures
        r == expression_non_negative(*expression),
    decreases expression,
{
    match expression {
        ArithmeticExpression::Integer { value } => *value >= 0,
        ArithmeticExpression::Rational { value } => value.numerator() >= 0,
        ArithmeticExpression::ExactDecimal { coefficient, .. } => *coefficient >= 0,
        ArithmeticExpression::Binary { left, right, .. } => expression_has_no_negative_values(left)
            && expression_has_no_negative_values(right),
    }
}

/// Whether an input capability offers no way to enter a negative number:
/// neither a minus sign nor a plus-minus.
pub fn input_interface_has_no_negative_capability(input: &AnswerInputInterface) -> (r: bool)
    ensures
        r == (!input.allows(EditorStructure::Negative) && !input.allows(EditorStructure::PlusMinus)),
{
    !input.allows_structure(EditorStructure::Negative) && !input.allows_structure(EditorStructure::PlusMinus)
}

} // verus!
