//! Grading: exact mathematical comparison of a learner's answer with the
//! expected answer, plus representation warnings that the client turns into
//! its own policy.

use vstd::prelude::*;
use crate::answer::{abs_i64, abs_u64, answers_equal, within_node_limit, AnswerNode, AnswerValue};
use crate::exact::{gcd_spec, gcd_u64};
use crate::model::{AnswerSchema, GradeResult, GradeStatus, GradeWarning};
use crate::normalize::{normalize_answer, normalized};
use crate::solutions::{
    any_node, contains_nan, contains_plus_minus, embedded_pm, lemma_take_step, lemma_views_of_tuple,
    lemma_views_push, nodes_equal, solutions_equal, solutions_mathematically_equal, some_node,
    sort_answers, sort_values, views, NodeFeature,
};

verus! {

#[derive(Clone, Copy, Debug, PartialEq, Eq, Structural)]
pub enum GradeError {
    InvalidAnswerSchema,
    ExpectedAnswerOutsideSchema,
    AnswerAstSizeLimit,
}

pub open spec fn grade_error_code(e: GradeError) -> Seq<char> {
    match e {
        GradeError::InvalidAnswerSchema => "invalid_answer_schema"@,
        GradeError::ExpectedAnswerOutsideSchema => "expected_answer_outside_schema"@,
        GradeError::AnswerAstSizeLimit => "answer_ast_size_limit"@,
    }
}

impl GradeError {
    /// The stable wire code of the error.
    pub fn code(self) -> (r: &'static str)
        ensures
            r@ == grade_error_code(self),
    {
        match self {
            Self::InvalidAnswerSchema => "invalid_answer_schema",
            Self::ExpectedAnswerOutsideSchema => "expected_answer_outside_schema",
            Self::AnswerAstSizeLimit => "answer_ast_size_limit",
        }
    }
}

/// The number of coordinates an ordered schema fixes, if any.
pub open spec fn ordered_length(schema: Option<AnswerSchema>) -> Option<nat> {
    match schema {
        Some(AnswerSchema::OrderedPair) => Some(2),
        Some(AnswerSchema::OrderedTuple { length }) => Some(length as nat),
        _ => None,
    }
}

pub open spec fn is_list_of_length(v: AnswerValue, n: nat) -> bool {
    match v {
        AnswerValue::Tuple(vs) => vs.len() == n,
        _ => false,
    }
}

/// Ordered schemas compare coordinate by coordinate; every other answer
/// compares as a set of solutions.
pub open spec fn mathematically_equal(ne: AnswerValue, na: AnswerValue, schema: Option<AnswerSchema>) -> bool {
    match ordered_length(schema) {
        Some(n) => is_list_of_length(ne, n) && is_list_of_length(na, n) && ne == na,
        None => solutions_equal(ne, na),
    }
}

/// A tree with an error node is never correct; an empty answer is
/// unanswered.
pub open spec fn status_of(ne: AnswerValue, na: AnswerValue, equal: bool) -> GradeStatus {
    if contains_nan(ne) || contains_nan(na) {
        GradeStatus::Incorrect
    } else if na is Empty {
        GradeStatus::Unanswered
    } else if equal {
        GradeStatus::Correct
    } else {
        GradeStatus::Incorrect
    }
}

pub open spec fn with_warning(ws: Seq<GradeWarning>, w: GradeWarning) -> Seq<GradeWarning> {
    if ws.contains(w) {
        ws
    } else {
        ws.push(w)
    }
}

pub open spec fn with_warning_if(ws: Seq<GradeWarning>, c: bool, w: GradeWarning) -> Seq<GradeWarning> {
    if c {
        ws.push(w)
    } else {
        ws
    }
}

/// Warnings for a correct answer written in a non-canonical shape.
pub open spec fn representation_warnings(a: AnswerValue) -> Seq<GradeWarning> {
    let w1 = with_warning_if(Seq::empty(), some_node(NodeFeature::ReducibleFraction, a), GradeWarning::FractionNotReduced);
    let w2 = with_warning_if(w1, some_node(NodeFeature::RedundantNegative, a), GradeWarning::RedundantNegative);
    let w3 = with_warning_if(w2, some_node(NodeFeature::RedundantPlusMinus, a), GradeWarning::RedundantPlusMinus);
    with_warning_if(w3, some_node(NodeFeature::RedundantDecimal, a), GradeWarning::RedundantDecimal)
}

pub open spec fn normalized_all(s: Seq<AnswerValue>) -> Seq<AnswerValue>
    decreases s.len(),
{
    if s.len() == 0 {
        Seq::empty()
    } else {
        normalized_all(s.drop_last()).push(normalized(s.last()))
    }
}

pub open spec fn has_adjacent_equal(s: Seq<AnswerValue>) -> bool {
    exists|i: int| 0 <= i && i + 1 < s.len() && #[trigger] s[i] == s[i + 1]
}

/// A list in which two items normalize to the same tree.
pub open spec fn has_duplicate(a: AnswerValue) -> bool {
    match a {
        AnswerValue::Tuple(vs) => has_adjacent_equal(sort_values(normalized_all(vs))),
        _ => false,
    }
}

/// An integer written as an integer, or as a minus sign before one.
pub open spec fn integer_display_form(a: AnswerValue) -> bool {
    match a {
        AnswerValue::Integer(_) => true,
        AnswerValue::Negative(x) => match *x {
            AnswerValue::Integer(v) => v >= 0,
            _ => false,
        },
        _ => false,
    }
}

/// An integer fraction with a positive denominator, in lowest terms.
pub open spec fn simple_fraction(a: AnswerValue) -> bool {
    match a {
        AnswerValue::Fraction { numerator, denominator } => match (*numerator, *denominator) {
            (AnswerValue::Integer(l), AnswerValue::Integer(r)) => r > 0 && gcd_spec(abs_i64(l), abs_i64(r)) == 1,
            _ => false,
        },
        _ => false,
    }
}

pub open spec fn simple_reduced_fraction_form(a: AnswerValue) -> bool {
    simple_fraction(a) || match a {
        AnswerValue::Negative(x) => simple_fraction(*x),
        _ => false,
    }
}

pub open spec fn requires_reduced_form(schema: Option<AnswerSchema>) -> bool {
    match schema {
        Some(AnswerSchema::Rational { require_reduced_fraction_form, .. }) => require_reduced_fraction_form,
        _ => false,
    }
}

/// The warnings of one grading, each at most once, in the order in which
/// the rules are applied.
pub open spec fn grade_warnings(
    e: AnswerValue,
    a: AnswerValue,
    ne: AnswerValue,
    schema: Option<AnswerSchema>,
    equal: bool,
) -> Seq<GradeWarning> {
    let unordered = ordered_length(schema) is None;
    let w0 = if equal && e != a {
        representation_warnings(a)
    } else {
        Seq::empty()
    };
    let w1 = if unordered && has_duplicate(a) {
        with_warning(w0, GradeWarning::DuplicateSolution)
    } else {
        w0
    };
    let w2 = if unordered && ne is Tuple && embedded_pm(a) {
        with_warning(w1, GradeWarning::SolutionListRequired)
    } else {
        w1
    };
    let w3 = if equal && e is MixedFraction && !(a is MixedFraction) {
        with_warning(w2, GradeWarning::MixedFractionFormRequired)
    } else {
        w2
    };
    let w4 = if equal && ne is Integer && !integer_display_form(a) {
        with_warning(w3, GradeWarning::IntegerFormRequired)
    } else {
        w3
    };
    if equal && ne is Fraction && !(e is MixedFraction) && requires_reduced_form(schema) {
        if some_node(NodeFeature::ReducibleFraction, a) {
            with_warning(w4, GradeWarning::FractionNotReduced)
        } else if !simple_reduced_fraction_form(a) {
            with_warning(w4, GradeWarning::FractionFormRequired)
        } else {
            w4
        }
    } else {
        w4
    }
}

/// The grading of `a` against `e`: status, normalized expected and actual
/// trees, and warnings.
pub open spec fn graded(e: AnswerValue, a: AnswerValue, schema: Option<AnswerSchema>) -> (
    GradeStatus,
    AnswerValue,
    AnswerValue,
    Seq<GradeWarning>,
) {
    let ne = normalized(e);
    let na = normalized(a);
    let equal = mathematically_equal(ne, na, schema);
    (status_of(ne, na, equal), ne, na, grade_warnings(e, a, ne, schema, equal))
}

/// The grading of a tree beyond the structural node budget.
pub open spec fn size_limit_grade() -> (GradeStatus, AnswerValue, AnswerValue, Seq<GradeWarning>) {
    (
        GradeStatus::Incorrect,
        AnswerValue::NanError("answer_ast_size_limit"@),
        AnswerValue::NanError("answer_ast_size_limit"@),
        Seq::empty(),
    )
}

pub open spec fn schema_value(schema: Option<&AnswerSchema>) -> Option<AnswerSchema> {
    match schema {
        Some(s) => Some(*s),
        None => None,
    }
}

/// Grading under an optional answer schema, with the contract errors first.
pub open spec fn graded_with_schema(e: AnswerValue, a: AnswerValue, schema: Option<AnswerSchema>) -> Result<
    (GradeStatus, AnswerValue, AnswerValue, Seq<GradeWarning>),
    GradeError,
> {
    if !within_node_limit(e) || !within_node_limit(a) {
        Err(GradeError::AnswerAstSizeLimit)
    } else {
        match schema {
            Some(s) => if !s.structurally_valid() {
                Err(GradeError::InvalidAnswerSchema)
            } else if !s.accepts(e) {
                Err(GradeError::ExpectedAnswerOutsideSchema)
            } else {
                Ok(graded(e, a, schema))
            },
            None => Ok(graded(e, a, schema)),
        }
    }
}

/// Grades `actual` against `expected`; trees beyond the structural node
/// budget grade as incorrect without being read.
pub fn grade_answer(expected: &AnswerNode, actual: &AnswerNode) -> (r: GradeResult)
    ensures
        r@ == (if within_node_limit(expected@) && within_node_limit(actual@) {
            graded(expected@, actual@, None)
        } else {
            size_limit_grade()
        }),
{
    if !expected.is_within_structural_node_limit() || !actual.is_within_structural_node_limit() {
        return GradeResult::new(
            GradeStatus::Incorrect,
            AnswerNode::NanError("answer_ast_size_limit".to_owned()),
            AnswerNode::NanError("answer_ast_size_limit".to_owned()),
            Vec::new(),
        );
    }
    grade_answer_impl(expected, actual, None)
}

/// Grades `actual` against `expected` under an optional answer schema; the
/// schema must be valid and accept the expected answer.
pub fn grade_answer_with_schema(
    expected: &AnswerNode,
    actual: &AnswerNode,
    answer_schema: Option<&AnswerSchema>,
) -> (r: Result<GradeResult, GradeError>)
    ensures
        match r {
            Ok(g) => graded_with_schema(expected@, actual@, schema_value(answer_schema)) == Ok::<
                (GradeStatus, AnswerValue, AnswerValue, Seq<GradeWarning>),
                GradeError,
            >(g@),
            Err(e) => graded_with_schema(expected@, actual@, schema_value(answer_schema)) == Err::<
                (GradeStatus, AnswerValue, AnswerValue, Seq<GradeWarning>),
                GradeError,
            >(e),
        },
{
    if !expected.is_within_structural_node_limit() || !actual.is_within_structural_node_limit() {
        return Err(GradeError::AnswerAstSizeLimit);
    }
    if let Some(schema) = answer_schema {
        if !schema.is_structurally_valid() {
            return Err(GradeError::InvalidAnswerSchema);
        }
        if !schema.accepts_canonical_answer(expected) {
            return Err(GradeError::ExpectedAnswerOutsideSchema);
        }
    }
    Ok(grade_answer_impl(expected, actual, answer_schema))
}

fn ordered_length_of(answer_schema: Option<&AnswerSchema>) -> (r: Option<usize>)
    ensures
        match r {
            Some(n) => ordered_length(schema_value(answer_schema)) == Some(n as nat),
            None => ordered_length(schema_value(answer_schema)) is None,
        },
{
    match answer_schema {
        Some(AnswerSchema::OrderedPair) => Some(2),
        Some(AnswerSchema::OrderedTuple { length }) => Some(*length as usize),
        _ => None,
    }
}

fn is_list_of_length_exec(answer: &AnswerNode, n: usize) -> (r: bool)
    ensures
        r == is_list_of_length(answer@, n as nat),
{
    match answer {
        AnswerNode::Tuple(values) => {
            proof {
                lemma_views_of_tuple(values@);
            }
            values.len() == n
        },
        _ => false,
    }
}

fn requires_reduced_form_exec(answer_schema: Option<&AnswerSchema>) -> (r: bool)
    ensures
        r == requires_reduced_form(schema_value(answer_schema)),
{
    match answer_schema {
        Some(AnswerSchema::Rational { require_reduced_fraction_form, .. }) => *require_reduced_fraction_form,
        _ => false,
    }
}

fn grade_answer_impl(expected: &AnswerNode, actual: &AnswerNode, answer_schema: Option<&AnswerSchema>) -> (r:
    GradeResult)
    ensures
        r@ == graded(expected@, actual@, schema_value(answer_schema)),
{
    let ghost schema = schema_value(answer_schema);
    let representation_differs = !answers_equal(expected, actual);
    let normalized_expected = normalize_answer(expected);
    let normalized_actual = normalize_answer(actual);
    let ordered = ordered_length_of(answer_schema);
    let mathematically_equal = match ordered {
        Some(length) => is_list_of_length_exec(&normalized_expected, length) && is_list_of_length_exec(
            &normalized_actual,
            length,
        ) && answers_equal(&normalized_expected, &normalized_actual),
        None => solutions_mathematically_equal(&normalized_expected, &normalized_actual),
    };
    let status = if contains_nan_error(&normalized_expected) || contains_nan_error(&normalized_actual) {
        GradeStatus::Incorrect
    } else if normalized_actual.is_empty() {
        GradeStatus::Unanswered
    } else if mathematically_equal {
        GradeStatus::Correct
    } else {
        GradeStatus::Incorrect
    };
    let mut warnings = if mathematically_equal && representation_differs {
        representation_warnings_of(actual)
    } else {
        Vec::new()
    };
    let unordered = ordered.is_none();
    if unordered && has_duplicate_solution(actual) {
        push_warning(&mut warnings, GradeWarning::DuplicateSolution);
    }
    if unordered && matches!(normalized_expected, AnswerNode::Tuple(_)) && has_embedded_plus_minus(actual) {
        push_warning(&mut warnings, GradeWarning::SolutionListRequired);
    }
    let expected_is_mixed = matches!(expected, AnswerNode::MixedFraction { .. });
    if mathematically_equal && expected_is_mixed && !matches!(actual, AnswerNode::MixedFraction { .. }) {
        push_warning(&mut warnings, GradeWarning::MixedFractionFormRequired);
    }
    if mathematically_equal && matches!(normalized_expected, AnswerNode::Integer(_))
        && !uses_integer_display_form(actual) {
        push_warning(&mut warnings, GradeWarning::IntegerFormRequired);
    }
    if mathematically_equal && matches!(normalized_expected, AnswerNode::Fraction { .. })
        && !expected_is_mixed && requires_reduced_form_exec(answer_schema) {
        if has_reducible_fraction(actual) {
            // Whether a warning still earns credit is the client's policy;
            // grading reports correctness plus a stable warning code.
            push_warning(&mut warnings, GradeWarning::FractionNotReduced);
        } else if !uses_simple_reduced_fraction_form(actual) {
            // Mixed fractions, decimals, nested fractions and other equal
            // forms stay correct, but the sheet asks for one reduced fraction.
            push_warning(&mut warnings, GradeWarning::FractionFormRequired);
        }
    }
    GradeResult::new(status, normalized_expected, normalized_actual, warnings)
}

fn push_warning(warnings: &mut Vec<GradeWarning>, warning: GradeWarning)
    ensures
        final(warnings)@ == with_warning(old(warnings)@, warning),
{
    let mut i: usize = 0;
    while i < warnings.len()
        invariant
            i <= warnings@.len(),
            forall|j: int| 0 <= j < i ==> warnings@[j] != warning,
        decreases warnings@.len() - i,
    {
        if warnings[i] == warning {
            proof {
                assert(warnings@.contains(warning));
            }
            return;
        }
        i += 1;
    }
    warnings.push(warning);
}

fn uses_integer_display_form(answer: &AnswerNode) -> (r: bool)
    ensures
        r == integer_display_form(answer@),
{
    proof {
        reveal_with_fuel(crate::answer::view_node, 2);
    }
    match answer {
        AnswerNode::Integer(_) => true,
        AnswerNode::Negative(value) => match &**value {
            AnswerNode::Integer(v) => *v >= 0,
            _ => false,
        },
        _ => false,
    }
}

fn simple_fraction_exec(value: &AnswerNode) -> (r: bool)
    ensures
        r == simple_fraction(value@),
{
    proof {
        reveal_with_fuel(crate::answer::view_node, 2);
    }
    match value {
        AnswerNode::Fraction { numerator, denominator } => match (&**numerator, &**denominator) {
            (AnswerNode::Integer(left), AnswerNode::Integer(right)) => *right > 0 && gcd_u64(
                abs_u64(*left),
                abs_u64(*right),
            ) == 1,
            _ => false,
        },
        _ => false,
    }
}

fn uses_simple_reduced_fraction_form(answer: &AnswerNode) -> (r: bool)
    ensures
        r == simple_reduced_fraction_form(answer@),
{
    simple_fraction_exec(answer) || match answer {
        AnswerNode::Negative(value) => simple_fraction_exec(value),
        _ => false,
    }
}

fn contains_nan_error(answer: &AnswerNode) -> (r: bool)
    ensures
        r == contains_nan(answer@),
{
    any_node(NodeFeature::NanError, answer)
}

fn representation_warnings_of(answer: &AnswerNode) -> (r: Vec<GradeWarning>)
    ensures
        r@ == representation_warnings(answer@),
{
    let mut warnings: Vec<GradeWarning> = Vec::new();
    if has_reducible_fraction(answer) {
        warnings.push(GradeWarning::FractionNotReduced);
    }
    if has_redundant_negative(answer) {
        warnings.push(GradeWarning::RedundantNegative);
    }
    if has_redundant_plus_minus(answer) {
        warnings.push(GradeWarning::RedundantPlusMinus);
    }
    if has_redundant_decimal(answer) {
        warnings.push(GradeWarning::RedundantDecimal);
    }
    warnings
}

fn has_reducible_fraction(answer: &AnswerNode) -> (r: bool)
    ensures
        r == some_node(NodeFeature::ReducibleFraction, answer@),
{
    any_node(NodeFeature::ReducibleFraction, answer)
}

fn has_redundant_negative(answer: &AnswerNode) -> (r: bool)
    ensures
        r == some_node(NodeFeature::RedundantNegative, answer@),
{
    any_node(NodeFeature::RedundantNegative, answer)
}

fn has_redundant_plus_minus(answer: &AnswerNode) -> (r: bool)
    ensures
        r == some_node(NodeFeature::RedundantPlusMinus, answer@),
{
    any_node(NodeFeature::RedundantPlusMinus, answer)
}

fn has_redundant_decimal(answer: &AnswerNode) -> (r: bool)
    ensures
        r == some_node(NodeFeature::RedundantDecimal, answer@),
{
    any_node(NodeFeature::RedundantDecimal, answer)
}

fn has_duplicate_solution(answer: &AnswerNode) -> (r: bool)
    ensures
        r == has_duplicate(answer@),
{
    let values = match answer {
        AnswerNode::Tuple(values) => values,
        _ => return false,
    };
    proof {
        lemma_views_of_tuple(values@);
    }
    let ghost tv = views(values@);
    assert(answer@ == AnswerValue::Tuple(tv));
    let mut normal: Vec<AnswerNode> = Vec::new();
    let mut i: usize = 0;
    while i < values.len()
        invariant
            tv == views(values@),
            i <= values@.len(),
            views(normal@) == normalized_all(tv.take(i as int)),
        decreases values@.len() - i,
    {
        proof {
            lemma_take_step(tv, i as int);
        }
        let n = normalize_answer(&values[i]);
        proof {
            lemma_views_push(normal@, n);
        }
        normal.push(n);
        i += 1;
    }
    proof {
        assert(tv.take(values@.len() as int) =~= tv);
    }
    let sorted = sort_answers(&normal);
    let ghost sv = views(sorted@);
    assert(has_duplicate(answer@) == has_adjacent_equal(sv));
    if sorted.len() == 0 {
        return false;
    }
    let last = sorted.len() - 1;
    let mut k: usize = 0;
    while k < last
        invariant
            sv == views(sorted@),
            last + 1 == sorted@.len(),
            k <= last,
            has_duplicate(answer@) == has_adjacent_equal(sv),
            forall|j: int| 0 <= j < k && j + 1 < sv.len() ==> #[trigger] sv[j] != sv[j + 1],
        decreases sorted@.len() - k,
    {
        if answers_equal(&sorted[k], &sorted[k + 1]) {
            proof {
                assert(sv[k as int] == sv[k + 1]);
            }
            return true;
        }
        k += 1;
    }
    proof {
        assert forall|j: int| 0 <= j && j + 1 < sv.len() implies #[trigger] sv[j] != sv[j + 1] by {}
    }
    false
}

fn has_embedded_plus_minus(answer: &AnswerNode) -> (r: bool)
    ensures
        r == embedded_pm(answer@),
{
    match answer {
        AnswerNode::PlusMinus(_) => false,
        _ => contains_plus_minus(answer),
    }
}

/// Grading an answer against itself finds it correct whenever it holds no
/// error node, is not empty, and lies within the node budget.
pub proof fn lemma_self_grade_correct(a: AnswerValue)
    requires
        within_node_limit(a),
        !contains_nan(normalized(a)),
        !(normalized(a) is Empty),
    ensures
        graded(a, a, None).0 == GradeStatus::Correct,
{
}

} // verus!
