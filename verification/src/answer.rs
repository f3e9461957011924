//! Exact, typed answer syntax shared by editing, grading and every generator.
//! Mathematical values carry no binary floating-point fields.

use vstd::prelude::*;
use crate::text::{chars_of, decimal_digit_count, digit_count};

verus! {

/// Maximum accepted answer AST size for interactive input.
pub const MAX_ANSWER_AST_SIZE: usize = 18;

#[derive(Clone, Copy, Debug, PartialEq, Eq, PartialOrd, Ord, Hash, Structural)]
pub enum AnswerBinaryOperator {
    Add,
    Subtract,
    Multiply,
}

#[derive(Debug, Default, PartialEq, Eq, PartialOrd, Ord)]
pub enum AnswerNode {
    #[default]
    Empty,
    Integer(i64),
    ExactDecimal { coefficient: i64, scale: u32 },
    NanError(String),
    Fraction { numerator: Box<AnswerNode>, denominator: Box<AnswerNode> },
    MixedFraction {
        whole: Box<AnswerNode>,
        numerator: Box<AnswerNode>,
        denominator: Box<AnswerNode>,
    },
    Root { radicand: Box<AnswerNode>, index: Option<Box<AnswerNode>> },
    Negative(Box<AnswerNode>),
    PlusMinus(Box<AnswerNode>),
    Binary { operator: AnswerBinaryOperator, left: Box<AnswerNode>, right: Box<AnswerNode> },
    Tuple(Vec<AnswerNode>),
    Variable(String),
}

/// The mathematical model of an answer tree: strings become character
/// sequences and tuples become sequences of models.
pub enum AnswerValue {
    Empty,
    Integer(i64),
    ExactDecimal { coefficient: i64, scale: u32 },
    NanError(Seq<char>),
    Fraction { numerator: Box<AnswerValue>, denominator: Box<AnswerValue> },
    MixedFraction {
        whole: Box<AnswerValue>,
        numerator: Box<AnswerValue>,
        denominator: Box<AnswerValue>,
    },
    Root { radicand: Box<AnswerValue>, index: Option<Box<AnswerValue>> },
    Negative(Box<AnswerValue>),
    PlusMinus(Box<AnswerValue>),
    Binary { operator: AnswerBinaryOperator, left: Box<AnswerValue>, right: Box<AnswerValue> },
    Tuple(Seq<AnswerValue>),
    Variable(Seq<char>),
}

pub open spec fn view_node(n: AnswerNode) -> AnswerValue
    decreases n, 0nat,
{
    match n {
        AnswerNode::Empty => AnswerValue::Empty,
        AnswerNode::Integer(v) => AnswerValue::Integer(v),
        AnswerNode::ExactDecimal { coefficient, scale } => AnswerValue::ExactDecimal { coefficient, scale },
        AnswerNode::NanError(s) => AnswerValue::NanError(s@),
        AnswerNode::Fraction { numerator, denominator } => AnswerValue::Fraction {
            numerator: Box::new(view_node(*numerator)),
            denominator: Box::new(view_node(*denominator)),
        },
        AnswerNode::MixedFraction { whole, numerator, denominator } => AnswerValue::MixedFraction {
            whole: Box::new(view_node(*whole)),
            numerator: Box::new(view_node(*numerator)),
            denominator: Box::new(view_node(*denominator)),
        },
        AnswerNode::Root { radicand, index } => AnswerValue::Root {
            radicand: Box::new(view_node(*radicand)),
            index: match index {
                Some(i) => Some(Box::new(view_node(*i))),
                None => None,
            },
        },
        AnswerNode::Negative(v) => AnswerValue::Negative(Box::new(view_node(*v))),
        AnswerNode::PlusMinus(v) => AnswerValue::PlusMinus(Box::new(view_node(*v))),
        AnswerNode::Binary { operator, left, right } => AnswerValue::Binary {
            operator,
            left: Box::new(view_node(*left)),
            right: Box::new(view_node(*right)),
        },
        AnswerNode::Tuple(vs) => AnswerValue::Tuple(view_nodes(vs@, vs@.len())),
        AnswerNode::Variable(s) => AnswerValue::Variable(s@),
    }
}

/// Models of the first `k` nodes of `s`.
pub open spec fn view_nodes(s: Seq<AnswerNode>, k: nat) -> Seq<AnswerValue>
    decreases s, k,
{
    if k == 0 || k > s.len() {
        Seq::empty()
    } else {
        view_nodes(s, (k - 1) as nat).push(view_node(s[k - 1]))
    }
}

pub proof fn lemma_view_nodes(s: Seq<AnswerNode>, k: nat)
    requires
        k <= s.len(),
    ensures
        view_nodes(s, k).len() == k,
        forall|i: int| 0 <= i < k ==> #[trigger] view_nodes(s, k)[i] == view_node(s[i]),
    decreases k,
{
    if k > 0 {
        lemma_view_nodes(s, (k - 1) as nat);
    }
}

pub broadcast proof fn lemma_tuple_view(s: Seq<AnswerNode>)
    ensures
        #[trigger] view_nodes(s, s.len()).len() == s.len(),
        forall|i: int| 0 <= i < s.len() ==> #[trigger] view_nodes(s, s.len())[i] == view_node(s[i]),
{
    lemma_view_nodes(s, s.len());
}

impl View for AnswerNode {
    type V = AnswerValue;

    open spec fn view(&self) -> AnswerValue {
        view_node(*self)
    }
}

pub open spec fn abs_i64(v: i64) -> nat {
    if v < 0 {
        (-(v as int)) as nat
    } else {
        v as nat
    }
}

pub fn abs_u64(v: i64) -> (r: u64)
    ensures
        r == abs_i64(v),
{
    if v < 0 {
        if v == i64::MIN {
            9223372036854775808u64
        } else {
            (-v) as u64
        }
    } else {
        v as u64
    }
}

pub open spec fn max_nat(a: nat, b: nat) -> nat {
    if a >= b {
        a
    } else {
        b
    }
}

/// Display size: leaf integers count decimal digits, composite nodes count one
/// for the parent plus their children, so `12/42` has size `1 + 2 + 2 = 5`.
pub open spec fn display_size(v: AnswerValue) -> nat
    decreases v, 0nat,
{
    match v {
        AnswerValue::Empty => 0,
        AnswerValue::Integer(x) => digit_count(abs_i64(x)),
        AnswerValue::ExactDecimal { coefficient, scale } => max_nat(
            digit_count(abs_i64(coefficient)),
            scale as nat + 1,
        ),
        AnswerValue::NanError(s) => s.len(),
        AnswerValue::Fraction { numerator, denominator } => 1 + display_size(*numerator)
            + display_size(*denominator),
        AnswerValue::MixedFraction { whole, numerator, denominator } => 1 + display_size(*whole)
            + display_size(*numerator) + display_size(*denominator),
        AnswerValue::Root { radicand, index } => 1 + display_size(*radicand) + match index {
            Some(i) => display_size(*i),
            None => 0,
        },
        AnswerValue::Negative(x) => 1 + display_size(*x),
        AnswerValue::PlusMinus(x) => 1 + display_size(*x),
        AnswerValue::Binary { left, right, .. } => 1 + display_size(*left) + display_size(*right),
        AnswerValue::Tuple(s) => 1 + display_sizes(s, s.len()),
        AnswerValue::Variable(s) => max_nat(s.len(), 1),
    }
}

pub open spec fn display_sizes(s: Seq<AnswerValue>, k: nat) -> nat
    decreases s, k,
{
    if k == 0 || k > s.len() {
        0
    } else {
        display_sizes(s, (k - 1) as nat) + display_size(s[k - 1])
    }
}

/// Number of structural nodes, each node counting once.
pub open spec fn node_count(v: AnswerValue) -> nat
    decreases v, 0nat,
{
    match v {
        AnswerValue::Fraction { numerator, denominator } => 1 + node_count(*numerator)
            + node_count(*denominator),
        AnswerValue::MixedFraction { whole, numerator, denominator } => 1 + node_count(*whole)
            + node_count(*numerator) + node_count(*denominator),
        AnswerValue::Root { radicand, index } => 1 + node_count(*radicand) + match index {
            Some(i) => node_count(*i),
            None => 0,
        },
        AnswerValue::Negative(x) => 1 + node_count(*x),
        AnswerValue::PlusMinus(x) => 1 + node_count(*x),
        AnswerValue::Binary { left, right, .. } => 1 + node_count(*left) + node_count(*right),
        AnswerValue::Tuple(s) => 1 + node_counts(s, s.len()),
        _ => 1,
    }
}

pub open spec fn node_counts(s: Seq<AnswerValue>, k: nat) -> nat
    decreases s, k,
{
    if k == 0 || k > s.len() {
        0
    } else {
        node_counts(s, (k - 1) as nat) + node_count(s[k - 1])
    }
}

/// Generated canonical answers may contain exact mathematical structure, but
/// never editor-only placeholders, parse errors, or free-form variables.
pub open spec fn is_generated(v: AnswerValue) -> bool
    decreases v, 0nat,
{
    match v {
        AnswerValue::Empty | AnswerValue::NanError(_) | AnswerValue::Variable(_) => false,
        AnswerValue::Integer(_) | AnswerValue::ExactDecimal { .. } => true,
        AnswerValue::Fraction { numerator, denominator } => is_generated(*numerator)
            && is_generated(*denominator),
        AnswerValue::MixedFraction { whole, numerator, denominator } => is_generated(*whole)
            && is_generated(*numerator) && is_generated(*denominator),
        AnswerValue::Root { radicand, index } => is_generated(*radicand) && match index {
            Some(i) => is_generated(*i),
            None => true,
        },
        AnswerValue::Negative(x) => is_generated(*x),
        AnswerValue::PlusMinus(x) => is_generated(*x),
        AnswerValue::Binary { left, right, .. } => is_generated(*left) && is_generated(*right),
        AnswerValue::Tuple(s) => all_generated(s, s.len()),
    }
}

pub open spec fn all_generated(s: Seq<AnswerValue>, k: nat) -> bool
    decreases s, k,
{
    if k == 0 || k > s.len() {
        true
    } else {
        all_generated(s, (k - 1) as nat) && is_generated(s[k - 1])
    }
}

/// Exact integer magnitudes of every integer and decimal coefficient, in
/// left-to-right order.
pub open spec fn magnitudes(v: AnswerValue) -> Seq<u64>
    decreases v, 0nat,
{
    match v {
        AnswerValue::Integer(x) => seq![abs_i64(x) as u64],
        AnswerValue::ExactDecimal { coefficient, .. } => seq![abs_i64(coefficient) as u64],
        AnswerValue::Fraction { numerator, denominator } => magnitudes(*numerator) + magnitudes(
            *denominator,
        ),
        AnswerValue::MixedFraction { whole, numerator, denominator } => magnitudes(*whole)
            + magnitudes(*numerator) + magnitudes(*denominator),
        AnswerValue::Root { radicand, index } => magnitudes(*radicand) + match index {
            Some(i) => magnitudes(*i),
            None => Seq::empty(),
        },
        AnswerValue::Negative(x) => magnitudes(*x),
        AnswerValue::PlusMinus(x) => magnitudes(*x),
        AnswerValue::Binary { left, right, .. } => magnitudes(*left) + magnitudes(*right),
        AnswerValue::Tuple(s) => magnitudes_of(s, s.len()),
        _ => Seq::empty(),
    }
}

pub open spec fn magnitudes_of(s: Seq<AnswerValue>, k: nat) -> Seq<u64>
    decreases s, k,
{
    if k == 0 || k > s.len() {
        Seq::empty()
    } else {
        magnitudes_of(s, (k - 1) as nat) + magnitudes(s[k - 1])
    }
}

pub open spec fn saturate(x: nat) -> nat {
    if x > usize::MAX {
        usize::MAX as nat
    } else {
        x
    }
}

pub open spec fn within_size_limit(v: AnswerValue) -> bool {
    node_count(v) <= MAX_ANSWER_AST_SIZE && display_size(v) <= MAX_ANSWER_AST_SIZE
}

pub open spec fn within_node_limit(v: AnswerValue) -> bool {
    node_count(v) <= MAX_ANSWER_AST_SIZE
}

pub proof fn lemma_node_count_positive(v: AnswerValue)
    ensures
        node_count(v) >= 1,
{
}

/// Counts characters of `s`, stopping after `limit`.
pub fn bounded_char_count(s: &str, limit: usize) -> (r: usize)
    ensures
        r == if s@.len() < limit { s@.len() } else { limit as nat },
{
    broadcast use vstd::string::axiom_spec_iter;

    let mut count: usize = 0;
    for c in it: s.chars()
        invariant
            count == it.index(),
            count <= limit,
            it.seq() == s@,
    {
        if count == limit {
            return limit;
        }
        count += 1;
    }
    count
}

pub fn char_count(s: &str) -> (r: usize)
    ensures
        r == s@.len(),
{
    let v = chars_of(s);
    v.len()
}

fn saturating_add_usize(a: usize, b: usize) -> (r: usize)
    ensures
        r == saturate((a + b) as nat),
{
    if a > usize::MAX - b {
        usize::MAX
    } else {
        a + b
    }
}

impl AnswerNode {
    pub fn empty() -> (r: Self)
        ensures
            r@ == AnswerValue::Empty,
    {
        Self::Empty
    }

    pub fn integer(value: i64) -> (r: Self)
        ensures
            r@ == AnswerValue::Integer(value),
    {
        Self::Integer(value)
    }

    pub fn exact_decimal(coefficient: i64, scale: u32) -> (r: Self)
        ensures
            r@ == (AnswerValue::ExactDecimal { coefficient, scale }),
    {
        Self::ExactDecimal { coefficient, scale }
    }

    pub fn as_integer(&self) -> (r: Option<i64>)
        ensures
            r == (match self@ {
                AnswerValue::Integer(v) => Some(v),
                _ => None,
            }),
    {
        match self {
            Self::Integer(value) => Some(*value),
            _ => None,
        }
    }

    pub fn is_empty(&self) -> (r: bool)
        ensures
            r == (self@ is Empty),
    {
        matches!(self, Self::Empty)
    }

    /// A structural copy of the tree.
    pub fn duplicate(&self) -> (r: Self)
        ensures
            r@ == self@,
        decreases self,
    {
        match self {
            Self::Empty => Self::Empty,
            Self::Integer(v) => Self::Integer(*v),
            Self::ExactDecimal { coefficient, scale } => Self::ExactDecimal {
                coefficient: *coefficient,
                scale: *scale,
            },
            Self::NanError(raw) => Self::NanError(raw.clone()),
            Self::Fraction { numerator, denominator } => Self::Fraction {
                numerator: Box::new(numerator.duplicate()),
                denominator: Box::new(denominator.duplicate()),
            },
            Self::MixedFraction { whole, numerator, denominator } => Self::MixedFraction {
                whole: Box::new(whole.duplicate()),
                numerator: Box::new(numerator.duplicate()),
                denominator: Box::new(denominator.duplicate()),
            },
            Self::Root { radicand, index } => Self::Root {
                radicand: Box::new(radicand.duplicate()),
                index: match index {
                    Some(i) => Some(Box::new(i.duplicate())),
                    None => None,
                },
            },
            Self::Negative(v) => Self::Negative(Box::new(v.duplicate())),
            Self::PlusMinus(v) => Self::PlusMinus(Box::new(v.duplicate())),
            Self::Binary { operator, left, right } => Self::Binary {
                operator: *operator,
                left: Box::new(left.duplicate()),
                right: Box::new(right.duplicate()),
            },
            Self::Tuple(items) => {
                let mut out: Vec<AnswerNode> = Vec::new();
                let mut i: usize = 0;
                while i < items.len()
                    invariant
                        i <= items.len(),
                        *self == AnswerNode::Tuple(*items),
                        out@.len() == i,
                        forall|j: int| 0 <= j < i ==> #[trigger] out@[j]@ == items@[j]@,
                    decreases items.len() - i,
                {
                    proof {
                        let ghost v = *items;
                        assert(decreases_to!(*self => (*self)->Tuple_0));
                        assert(decreases_to!(v => v@));
                        assert(decreases_to!(v@ => v@[i as int]));
                    }
                    let c = items[i].duplicate();
                    out.push(c);
                    i += 1;
                }
                proof {
                    lemma_view_nodes(out@, out@.len());
                    lemma_view_nodes(items@, items@.len());
                    assert forall|j: int| 0 <= j < out@.len() implies view_nodes(out@, out@.len())[j]
                        == view_nodes(items@, items@.len())[j] by {
                        assert(out@[j]@ == items@[j]@);
                    }
                    assert(view_nodes(out@, out@.len()) =~= view_nodes(items@, items@.len()));
                }
                Self::Tuple(out)
            },
            Self::Variable(name) => Self::Variable(name.clone()),
        }
    }
}


impl Clone for AnswerNode {
    /// A structural copy of the tree.
    fn clone(&self) -> (r: Self)
        ensures
            r@ == self@,
    {
        self.duplicate()
    }
}

/// The user's display/input tree kept beside the canonical tree that grading
/// and mathematical comparison use.
#[derive(Clone, Debug, PartialEq, Eq)]
pub struct AnswerRepresentation {
    pub display: AnswerNode,
    pub normalized: AnswerNode,
}

pub proof fn lemma_tuple_view_eq(a: Seq<AnswerNode>, t: Seq<AnswerValue>)
    requires
        a.len() == t.len(),
        forall|j: int| 0 <= j < a.len() ==> #[trigger] a[j]@ == t[j],
    ensures
        view_nodes(a, a.len()) == t,
{
    lemma_view_nodes(a, a.len());
    assert forall|j: int| 0 <= j < a.len() implies view_nodes(a, a.len())[j] == t[j] by {
        assert(a[j]@ == t[j]);
    }
    assert(view_nodes(a, a.len()) =~= t);
}

pub proof fn lemma_saturate_add(x: nat, y: nat)
    ensures
        saturate(saturate(x) + saturate(y)) == saturate(x + y),
{
}

impl AnswerNode {
    /// `Some(budget - node_count)` when the tree has at most `budget` nodes.
    /// Visits at most `budget + 1` nodes.
    fn nodes_within(&self, budget: usize) -> (r: Option<usize>)
        ensures
            r matches Some(rem) ==> node_count(self@) <= budget && rem == budget - node_count(self@),
            r is None ==> node_count(self@) > budget,
        decreases self,
    {
        proof {
            lemma_node_count_positive(self@);
        }
        if budget == 0 {
            return None;
        }
        let rem = budget - 1;
        match self {
            Self::Fraction { numerator, denominator } => match numerator.nodes_within(rem) {
                Some(r1) => denominator.nodes_within(r1),
                None => None,
            },
            Self::MixedFraction { whole, numerator, denominator } => match whole.nodes_within(rem) {
                Some(r1) => match numerator.nodes_within(r1) {
                    Some(r2) => denominator.nodes_within(r2),
                    None => None,
                },
                None => None,
            },
            Self::Root { radicand, index } => match radicand.nodes_within(rem) {
                Some(r1) => match index {
                    Some(i) => i.nodes_within(r1),
                    None => Some(r1),
                },
                None => None,
            },
            Self::Negative(v) | Self::PlusMinus(v) => v.nodes_within(rem),
            Self::Binary { left, right, .. } => match left.nodes_within(rem) {
                Some(r1) => right.nodes_within(r1),
                None => None,
            },
            Self::Tuple(items) => {
                let ghost tv = view_nodes(items@, items@.len());
                proof {
                    lemma_view_nodes(items@, items@.len());
                }
                let mut r = rem;
                let mut i: usize = 0;
                while i < items.len()
                    invariant
                        i <= items.len(),
                        *self == AnswerNode::Tuple(*items),
                        tv == view_nodes(items@, items@.len()),
                        tv.len() == items@.len(),
                        forall|j: int| 0 <= j < tv.len() ==> #[trigger] tv[j] == items@[j]@,
                        node_counts(tv, i as nat) <= rem,
                        rem + 1 == budget,
                        r == rem - node_counts(tv, i as nat),
                    decreases items.len() - i,
                {
                    proof {
                        let ghost v = *items;
                        assert(decreases_to!(*self => (*self)->Tuple_0));
                        assert(decreases_to!(v => v@));
                        assert(decreases_to!(v@ => v@[i as int]));
                        assert(tv[i as int] == items@[i as int]@);
                    }
                    match items[i].nodes_within(r) {
                        Some(next) => {
                            r = next;
                        },
                        None => {
                            proof {
                                assert(node_counts(tv, (i + 1) as nat) == node_counts(tv, i as nat)
                                    + node_count(tv[i as int]));
                                lemma_node_counts_monotone(tv, (i + 1) as nat, tv.len());
                                assert(self@ == AnswerValue::Tuple(tv));
                            }
                            return None;
                        },
                    }
                    proof {
                        assert(node_counts(tv, (i + 1) as nat) == node_counts(tv, i as nat)
                            + node_count(tv[i as int]));
                    }
                    i += 1;
                }
                proof {
                    assert(self@ == AnswerValue::Tuple(tv));
                }
                Some(r)
            },
            _ => Some(rem),
        }
    }

    /// The tree has at most the interactive node budget of nodes. Visits at
    /// most one node more than the budget.
    pub fn is_within_structural_node_limit(&self) -> (r: bool)
        ensures
            r == within_node_limit(self@),
    {
        self.nodes_within(MAX_ANSWER_AST_SIZE).is_some()
    }

    /// The display size, saturating at `usize::MAX`.
    pub fn size(&self) -> (r: usize)
        ensures
            r == saturate(display_size(self@)),
        decreases self,
    {
        match self {
            Self::Empty => 0,
            Self::Integer(value) => {
                proof {
                    crate::text::lemma_digit_count_bound(abs_i64(*value));
                }
                decimal_digit_count(abs_u64(*value))
            },
            Self::ExactDecimal { coefficient, scale } => {
                proof {
                    crate::text::lemma_digit_count_bound(abs_i64(*coefficient));
                }
                let digits = decimal_digit_count(abs_u64(*coefficient));
                let claimed = saturating_add_usize(*scale as usize, 1);
                if digits >= claimed {
                    digits
                } else {
                    claimed
                }
            },
            Self::NanError(raw) => char_count(raw.as_str()),
            Self::Fraction { numerator, denominator } => {
                let a = numerator.size();
                let b = denominator.size();
                proof {
                    lemma_saturate_add(1, display_size(numerator@));
                    lemma_saturate_add(1 + display_size(numerator@), display_size(denominator@));
                }
                saturating_add_usize(saturating_add_usize(1, a), b)
            },
            Self::MixedFraction { whole, numerator, denominator } => {
                let a = whole.size();
                let b = numerator.size();
                let c = denominator.size();
                proof {
                    lemma_saturate_add(1, display_size(whole@));
                    lemma_saturate_add(1 + display_size(whole@), display_size(numerator@));
                    lemma_saturate_add(
                        1 + display_size(whole@) + display_size(numerator@),
                        display_size(denominator@),
                    );
                }
                saturating_add_usize(saturating_add_usize(saturating_add_usize(1, a), b), c)
            },
            Self::Root { radicand, index } => {
                let a = radicand.size();
                proof {
                    lemma_saturate_add(1, display_size(radicand@));
                }
                let base = saturating_add_usize(1, a);
                match index {
                    Some(i) => {
                        let b = i.size();
                        proof {
                            lemma_saturate_add(1 + display_size(radicand@), display_size(i@));
                        }
                        saturating_add_usize(base, b)
                    },
                    None => base,
                }
            },
            Self::Negative(v) | Self::PlusMinus(v) => {
                let a = v.size();
                proof {
                    lemma_saturate_add(1, display_size(v@));
                }
                saturating_add_usize(1, a)
            },
            Self::Binary { left, right, .. } => {
                let a = left.size();
                let b = right.size();
                proof {
                    lemma_saturate_add(1, display_size(left@));
                    lemma_saturate_add(1 + display_size(left@), display_size(right@));
                }
                saturating_add_usize(saturating_add_usize(1, a), b)
            },
            Self::Tuple(items) => {
                let ghost tv = view_nodes(items@, items@.len());
                proof {
                    lemma_view_nodes(items@, items@.len());
                }
                let mut total: usize = 1;
                let mut i: usize = 0;
                while i < items.len()
                    invariant
                        i <= items.len(),
                        *self == AnswerNode::Tuple(*items),
                        tv == view_nodes(items@, items@.len()),
                        tv.len() == items@.len(),
                        forall|j: int| 0 <= j < tv.len() ==> #[trigger] tv[j] == items@[j]@,
                        total == saturate(1 + display_sizes(tv, i as nat)),
                    decreases items.len() - i,
                {
                    proof {
                        let ghost v = *items;
                        assert(decreases_to!(*self => (*self)->Tuple_0));
                        assert(decreases_to!(v => v@));
                        assert(decreases_to!(v@ => v@[i as int]));
                        assert(tv[i as int] == items@[i as int]@);
                    }
                    let a = items[i].size();
                    proof {
                        lemma_saturate_add(1 + display_sizes(tv, i as nat), display_size(tv[i as int]));
                    }
                    total = saturating_add_usize(total, a);
                    i += 1;
                }
                total
            },
            Self::Variable(name) => {
                let n = char_count(name.as_str());
                if n >= 1 {
                    n
                } else {
                    1
                }
            },
        }
    }

    /// Whether the tree is within both interactive limits: the structural node
    /// budget and the display size.
    pub fn is_within_size_limit(&self) -> (r: bool)
        ensures
            r == within_size_limit(self@),
    {
        let mut visited: usize = 0;
        self.bounded_input_size(&mut visited, MAX_ANSWER_AST_SIZE).is_some()
    }

    fn bounded_input_size(&self, visited: &mut usize, display_remaining: usize) -> (r: Option<usize>)
        requires
            *old(visited) <= MAX_ANSWER_AST_SIZE,
            display_remaining <= MAX_ANSWER_AST_SIZE,
        ensures
            r is Some <==> (*old(visited) + node_count(self@) <= MAX_ANSWER_AST_SIZE
                && display_size(self@) <= display_remaining),
            r matches Some(d) ==> d == display_size(self@) && *final(visited) == *old(visited)
                + node_count(self@),
        decreases self,
    {
        *visited = *visited + 1;
        if *visited > MAX_ANSWER_AST_SIZE {
            proof {
                lemma_node_count_positive(self@);
            }
            return None;
        }
        let display_size: usize = match self {
            Self::Empty => 0,
            Self::Integer(value) => decimal_digit_count(abs_u64(*value)),
            Self::ExactDecimal { coefficient, scale } => {
                let digits = decimal_digit_count(abs_u64(*coefficient));
                let claimed = saturating_add_usize(*scale as usize, 1);
                if digits >= claimed {
                    digits
                } else {
                    claimed
                }
            },
            Self::NanError(raw) => {
                let count = bounded_char_count(raw.as_str(), saturating_add_usize(display_remaining, 1));
                if count > display_remaining {
                    return None;
                }
                count
            },
            Self::Fraction { numerator, denominator } => {
                if display_remaining == 0 {
                    return None;
                }
                let remaining = display_remaining - 1;
                let a = match numerator.bounded_input_size(visited, remaining) {
                    Some(a) => a,
                    None => return None,
                };
                let remaining = remaining - a;
                let b = match denominator.bounded_input_size(visited, remaining) {
                    Some(b) => b,
                    None => return None,
                };
                1 + a + b
            },
            Self::MixedFraction { whole, numerator, denominator } => {
                if display_remaining == 0 {
                    return None;
                }
                let remaining = display_remaining - 1;
                let a = match whole.bounded_input_size(visited, remaining) {
                    Some(a) => a,
                    None => return None,
                };
                let remaining = remaining - a;
                let b = match numerator.bounded_input_size(visited, remaining) {
                    Some(b) => b,
                    None => return None,
                };
                let remaining = remaining - b;
                let c = match denominator.bounded_input_size(visited, remaining) {
                    Some(c) => c,
                    None => return None,
                };
                1 + a + b + c
            },
            Self::Root { radicand, index } => {
                if display_remaining == 0 {
                    return None;
                }
                let remaining = display_remaining - 1;
                let a = match radicand.bounded_input_size(visited, remaining) {
                    Some(a) => a,
                    None => return None,
                };
                match index {
                    Some(i) => {
                        let remaining = remaining - a;
                        let b = match i.bounded_input_size(visited, remaining) {
                            Some(b) => b,
                            None => return None,
                        };
                        1 + a + b
                    },
                    None => 1 + a,
                }
            },
            Self::Negative(v) | Self::PlusMinus(v) => {
                if display_remaining == 0 {
                    return None;
                }
                let remaining = display_remaining - 1;
                let a = match v.bounded_input_size(visited, remaining) {
                    Some(a) => a,
                    None => return None,
                };
                1 + a
            },
            Self::Binary { left, right, .. } => {
                if display_remaining == 0 {
                    return None;
                }
                let remaining = display_remaining - 1;
                let a = match left.bounded_input_size(visited, remaining) {
                    Some(a) => a,
                    None => return None,
                };
                let remaining = remaining - a;
                let b = match right.bounded_input_size(visited, remaining) {
                    Some(b) => b,
                    None => return None,
                };
                1 + a + b
            },
            Self::Tuple(items) => {
                if display_remaining == 0 {
                    return None;
                }
                let ghost tv = view_nodes(items@, items@.len());
                let ghost start = *old(visited) + 1;
                proof {
                    lemma_view_nodes(items@, items@.len());
                }
                let mut remaining = display_remaining - 1;
                let mut i: usize = 0;
                while i < items.len()
                    invariant
                        i <= items.len(),
                        *self == AnswerNode::Tuple(*items),
                        tv == view_nodes(items@, items@.len()),
                        tv.len() == items@.len(),
                        forall|j: int| 0 <= j < tv.len() ==> #[trigger] tv[j] == items@[j]@,
                        start <= MAX_ANSWER_AST_SIZE,
                        start == *old(visited) + 1,
                        display_remaining >= 1,
                        display_remaining <= MAX_ANSWER_AST_SIZE,
                        *visited == start + node_counts(tv, i as nat),
                        *visited <= MAX_ANSWER_AST_SIZE,
                        display_sizes(tv, i as nat) <= display_remaining - 1,
                        remaining == display_remaining - 1 - display_sizes(tv, i as nat),
                    decreases items.len() - i,
                {
                    proof {
                        let ghost v = *items;
                        assert(decreases_to!(*self => (*self)->Tuple_0));
                        assert(decreases_to!(v => v@));
                        assert(decreases_to!(v@ => v@[i as int]));
                        assert(tv[i as int] == items@[i as int]@);
                    }
                    let a = match items[i].bounded_input_size(visited, remaining) {
                        Some(a) => a,
                        None => {
                            proof {
                                assert(node_counts(tv, (i + 1) as nat) == node_counts(tv, i as nat)
                                    + node_count(tv[i as int]));
                                assert(display_sizes(tv, (i + 1) as nat) == display_sizes(tv, i as nat)
                                    + display_size(tv[i as int]));
                                lemma_node_counts_monotone(tv, (i + 1) as nat, tv.len());
                                lemma_display_sizes_monotone(tv, (i + 1) as nat, tv.len());
                                assert(self@ == AnswerValue::Tuple(tv));
                            }
                            return None;
                        },
                    };
                    proof {
                        assert(node_counts(tv, (i + 1) as nat) == node_counts(tv, i as nat)
                            + node_count(tv[i as int]));
                        assert(display_sizes(tv, (i + 1) as nat) == display_sizes(tv, i as nat)
                            + display_size(tv[i as int]));
                    }
                    remaining = remaining - a;
                    i += 1;
                }
                proof {
                    assert(self@ == AnswerValue::Tuple(tv));
                }
                display_remaining - remaining
            },
            Self::Variable(name) => {
                let count = bounded_char_count(name.as_str(), saturating_add_usize(display_remaining, 1));
                if count > display_remaining {
                    return None;
                }
                if count >= 1 {
                    count
                } else {
                    1
                }
            },
        };
        if display_size <= display_remaining {
            Some(display_size)
        } else {
            None
        }
    }
}

pub proof fn lemma_node_counts_monotone(s: Seq<AnswerValue>, a: nat, b: nat)
    requires
        a <= b <= s.len(),
    ensures
        node_counts(s, a) <= node_counts(s, b),
    decreases b - a,
{
    if a < b {
        lemma_node_counts_monotone(s, a, (b - 1) as nat);
    }
}

pub proof fn lemma_display_sizes_monotone(s: Seq<AnswerValue>, a: nat, b: nat)
    requires
        a <= b <= s.len(),
    ensures
        display_sizes(s, a) <= display_sizes(s, b),
    decreases b - a,
{
    if a < b {
        lemma_display_sizes_monotone(s, a, (b - 1) as nat);
    }
}


pub open spec fn variant_rank(v: AnswerValue) -> int {
    match v {
        AnswerValue::Empty => 0,
        AnswerValue::Integer(_) => 1,
        AnswerValue::ExactDecimal { .. } => 2,
        AnswerValue::NanError(_) => 3,
        AnswerValue::Fraction { .. } => 4,
        AnswerValue::MixedFraction { .. } => 5,
        AnswerValue::Root { .. } => 6,
        AnswerValue::Negative(_) => 7,
        AnswerValue::PlusMinus(_) => 8,
        AnswerValue::Binary { .. } => 9,
        AnswerValue::Tuple(_) => 10,
        AnswerValue::Variable(_) => 11,
    }
}

pub open spec fn operator_rank(o: AnswerBinaryOperator) -> int {
    match o {
        AnswerBinaryOperator::Add => 0,
        AnswerBinaryOperator::Subtract => 1,
        AnswerBinaryOperator::Multiply => 2,
    }
}

pub open spec fn int_order(a: int, b: int) -> int {
    if a < b {
        -1
    } else if a > b {
        1
    } else {
        0
    }
}

/// Three-way structural order (-1, 0, 1): variant rank first, then the fields
/// left to right; tuples compare element-wise, then by length; a missing root
/// index sorts before a present one.
pub open spec fn answer_order(a: AnswerValue, b: AnswerValue) -> int
    decreases a, 0nat,
{
    if variant_rank(a) != variant_rank(b) {
        int_order(variant_rank(a), variant_rank(b))
    } else {
        match (a, b) {
            (AnswerValue::Integer(x), AnswerValue::Integer(y)) => int_order(x as int, y as int),
            (
                AnswerValue::ExactDecimal { coefficient: c1, scale: s1 },
                AnswerValue::ExactDecimal { coefficient: c2, scale: s2 },
            ) => if c1 != c2 {
                int_order(c1 as int, c2 as int)
            } else {
                int_order(s1 as int, s2 as int)
            },
            (AnswerValue::NanError(x), AnswerValue::NanError(y)) => crate::text::chars_order(x, y, 0),
            (AnswerValue::Variable(x), AnswerValue::Variable(y)) => crate::text::chars_order(x, y, 0),
            (
                AnswerValue::Fraction { numerator: n1, denominator: d1 },
                AnswerValue::Fraction { numerator: n2, denominator: d2 },
            ) => {
                let c = answer_order(*n1, *n2);
                if c != 0 {
                    c
                } else {
                    answer_order(*d1, *d2)
                }
            },
            (
                AnswerValue::MixedFraction { whole: w1, numerator: n1, denominator: d1 },
                AnswerValue::MixedFraction { whole: w2, numerator: n2, denominator: d2 },
            ) => {
                let c = answer_order(*w1, *w2);
                if c != 0 {
                    c
                } else {
                    let c2 = answer_order(*n1, *n2);
                    if c2 != 0 {
                        c2
                    } else {
                        answer_order(*d1, *d2)
                    }
                }
            },
            (
                AnswerValue::Root { radicand: r1, index: i1 },
                AnswerValue::Root { radicand: r2, index: i2 },
            ) => {
                let c = answer_order(*r1, *r2);
                if c != 0 {
                    c
                } else {
                    match (i1, i2) {
                        (None, None) => 0,
                        (None, Some(_)) => -1,
                        (Some(_), None) => 1,
                        (Some(x), Some(y)) => answer_order(*x, *y),
                    }
                }
            },
            (AnswerValue::Negative(x), AnswerValue::Negative(y)) => answer_order(*x, *y),
            (AnswerValue::PlusMinus(x), AnswerValue::PlusMinus(y)) => answer_order(*x, *y),
            (
                AnswerValue::Binary { operator: o1, left: l1, right: r1 },
                AnswerValue::Binary { operator: o2, left: l2, right: r2 },
            ) => if o1 != o2 {
                int_order(operator_rank(o1), operator_rank(o2))
            } else {
                let c = answer_order(*l1, *l2);
                if c != 0 {
                    c
                } else {
                    answer_order(*r1, *r2)
                }
            },
            (AnswerValue::Tuple(x), AnswerValue::Tuple(y)) => answers_order(x, y, 0),
            _ => 0,
        }
    }
}

/// Lexicographic order of two answer sequences from position `i`.
pub open spec fn answers_order(a: Seq<AnswerValue>, b: Seq<AnswerValue>, i: nat) -> int
    decreases a, a.len() - i,
{
    if i >= a.len() || i >= b.len() {
        int_order(a.len() as int, b.len() as int)
    } else {
        let c = answer_order(a[i as int], b[i as int]);
        if c != 0 {
            c
        } else {
            answers_order(a, b, i + 1)
        }
    }
}

fn variant_rank_of(n: &AnswerNode) -> (r: u8)
    ensures
        r == variant_rank(n@),
{
    match n {
        AnswerNode::Empty => 0,
        AnswerNode::Integer(_) => 1,
        AnswerNode::ExactDecimal { .. } => 2,
        AnswerNode::NanError(_) => 3,
        AnswerNode::Fraction { .. } => 4,
        AnswerNode::MixedFraction { .. } => 5,
        AnswerNode::Root { .. } => 6,
        AnswerNode::Negative(_) => 7,
        AnswerNode::PlusMinus(_) => 8,
        AnswerNode::Binary { .. } => 9,
        AnswerNode::Tuple(_) => 10,
        AnswerNode::Variable(_) => 11,
    }
}

fn operator_rank_of(o: AnswerBinaryOperator) -> (r: u8)
    ensures
        r == operator_rank(o),
{
    match o {
        AnswerBinaryOperator::Add => 0,
        AnswerBinaryOperator::Subtract => 1,
        AnswerBinaryOperator::Multiply => 2,
    }
}

/// Structural equality of two answer trees.
pub fn answers_equal(a: &AnswerNode, b: &AnswerNode) -> (r: bool)
    ensures
        r == (a@ == b@),
    decreases a,
{
    match (a, b) {
        (AnswerNode::Empty, AnswerNode::Empty) => true,
        (AnswerNode::Integer(x), AnswerNode::Integer(y)) => *x == *y,
        (
            AnswerNode::ExactDecimal { coefficient: c1, scale: s1 },
            AnswerNode::ExactDecimal { coefficient: c2, scale: s2 },
        ) => *c1 == *c2 && *s1 == *s2,
        (AnswerNode::NanError(x), AnswerNode::NanError(y)) => *x == *y,
        (AnswerNode::Variable(x), AnswerNode::Variable(y)) => *x == *y,
        (
            AnswerNode::Fraction { numerator: n1, denominator: d1 },
            AnswerNode::Fraction { numerator: n2, denominator: d2 },
        ) => answers_equal(n1, n2) && answers_equal(d1, d2),
        (
            AnswerNode::MixedFraction { whole: w1, numerator: n1, denominator: d1 },
            AnswerNode::MixedFraction { whole: w2, numerator: n2, denominator: d2 },
        ) => answers_equal(w1, w2) && answers_equal(n1, n2) && answers_equal(d1, d2),
        (
            AnswerNode::Root { radicand: r1, index: i1 },
            AnswerNode::Root { radicand: r2, index: i2 },
        ) => {
            let same_index = match (i1, i2) {
                (None, None) => true,
                (Some(x), Some(y)) => answers_equal(x, y),
                _ => false,
            };
            same_index && answers_equal(r1, r2)
        },
        (AnswerNode::Negative(x), AnswerNode::Negative(y)) => answers_equal(x, y),
        (AnswerNode::PlusMinus(x), AnswerNode::PlusMinus(y)) => answers_equal(x, y),
        (
            AnswerNode::Binary { operator: o1, left: l1, right: r1 },
            AnswerNode::Binary { operator: o2, left: l2, right: r2 },
        ) => *o1 == *o2 && answers_equal(l1, l2) && answers_equal(r1, r2),
        (AnswerNode::Tuple(xs), AnswerNode::Tuple(ys)) => {
            let ghost xv = view_nodes(xs@, xs@.len());
            let ghost yv = view_nodes(ys@, ys@.len());
            proof {
                lemma_view_nodes(xs@, xs@.len());
                lemma_view_nodes(ys@, ys@.len());
            }
            if xs.len() != ys.len() {
                proof {
                    assert(xv.len() != yv.len());
                }
                return false;
            }
            let mut i: usize = 0;
            while i < xs.len()
                invariant
                    i <= xs.len(),
                    xs.len() == ys.len(),
                    *a == AnswerNode::Tuple(*xs),
                    *b == AnswerNode::Tuple(*ys),
                    xv == view_nodes(xs@, xs@.len()),
                    yv == view_nodes(ys@, ys@.len()),
                    xv.len() == xs@.len(),
                    yv.len() == ys@.len(),
                    forall|j: int| 0 <= j < xv.len() ==> #[trigger] xv[j] == xs@[j]@,
                    forall|j: int| 0 <= j < yv.len() ==> #[trigger] yv[j] == ys@[j]@,
                    forall|j: int| 0 <= j < i ==> #[trigger] xv[j] == yv[j],
                decreases xs.len() - i,
            {
                proof {
                    let ghost v = *xs;
                    assert(decreases_to!(*a => (*a)->Tuple_0));
                    assert(decreases_to!(v => v@));
                    assert(decreases_to!(v@ => v@[i as int]));
                    assert(xv[i as int] == xs@[i as int]@);
                    assert(yv[i as int] == ys@[i as int]@);
                }
                if !answers_equal(&xs[i], &ys[i]) {
                    proof {
                        assert(xv[i as int] != yv[i as int]);
                        assert(xv != yv);
                    }
                    return false;
                }
                i += 1;
            }
            proof {
                assert(xv =~= yv);
            }
            true
        },
        _ => {
            proof {
                assert(variant_rank(a@) != variant_rank(b@));
            }
            false
        },
    }
}

/// Three-way structural comparison: -1, 0 or 1 as `answer_order`.
pub fn compare_answers(a: &AnswerNode, b: &AnswerNode) -> (r: i8)
    ensures
        r == answer_order(a@, b@),
    decreases a,
{
    let ra = variant_rank_of(a);
    let rb = variant_rank_of(b);
    if ra < rb {
        return -1;
    }
    if ra > rb {
        return 1;
    }
    match (a, b) {
        (AnswerNode::Integer(x), AnswerNode::Integer(y)) => if *x < *y {
            -1
        } else if *x > *y {
            1
        } else {
            0
        },
        (
            AnswerNode::ExactDecimal { coefficient: c1, scale: s1 },
            AnswerNode::ExactDecimal { coefficient: c2, scale: s2 },
        ) => if *c1 < *c2 {
            -1
        } else if *c1 > *c2 {
            1
        } else if *s1 < *s2 {
            -1
        } else if *s1 > *s2 {
            1
        } else {
            0
        },
        (AnswerNode::NanError(x), AnswerNode::NanError(y)) => crate::text::compare_strings(x, y),
        (AnswerNode::Variable(x), AnswerNode::Variable(y)) => crate::text::compare_strings(x, y),
        (
            AnswerNode::Fraction { numerator: n1, denominator: d1 },
            AnswerNode::Fraction { numerator: n2, denominator: d2 },
        ) => {
            let c = compare_answers(n1, n2);
            if c != 0 {
                c
            } else {
                compare_answers(d1, d2)
            }
        },
        (
            AnswerNode::MixedFraction { whole: w1, numerator: n1, denominator: d1 },
            AnswerNode::MixedFraction { whole: w2, numerator: n2, denominator: d2 },
        ) => {
            let c = compare_answers(w1, w2);
            if c != 0 {
                c
            } else {
                let c2 = compare_answers(n1, n2);
                if c2 != 0 {
                    c2
                } else {
                    compare_answers(d1, d2)
                }
            }
        },
        (
            AnswerNode::Root { radicand: r1, index: i1 },
            AnswerNode::Root { radicand: r2, index: i2 },
        ) => {
            let c = compare_answers(r1, r2);
            if c != 0 {
                c
            } else {
                match (i1, i2) {
                    (None, None) => 0,
                    (None, Some(_)) => -1,
                    (Some(_), None) => 1,
                    (Some(x), Some(y)) => compare_answers(x, y),
                }
            }
        },
        (AnswerNode::Negative(x), AnswerNode::Negative(y)) => compare_answers(x, y),
        (AnswerNode::PlusMinus(x), AnswerNode::PlusMinus(y)) => compare_answers(x, y),
        (
            AnswerNode::Binary { operator: o1, left: l1, right: r1 },
            AnswerNode::Binary { operator: o2, left: l2, right: r2 },
        ) => {
            let p = operator_rank_of(*o1);
            let q = operator_rank_of(*o2);
            if p < q {
                -1
            } else if p > q {
                1
            } else {
                let c = compare_answers(l1, l2);
                if c != 0 {
                    c
                } else {
                    compare_answers(r1, r2)
                }
            }
        },
        (AnswerNode::Tuple(xs), AnswerNode::Tuple(ys)) => {
            let ghost xv = view_nodes(xs@, xs@.len());
            let ghost yv = view_nodes(ys@, ys@.len());
            proof {
                lemma_view_nodes(xs@, xs@.len());
                lemma_view_nodes(ys@, ys@.len());
            }
            let mut i: usize = 0;
            while i < xs.len() && i < ys.len()
                invariant
                    i <= xs.len(),
                    i <= ys.len(),
                    *a == AnswerNode::Tuple(*xs),
                    xv == view_nodes(xs@, xs@.len()),
                    yv == view_nodes(ys@, ys@.len()),
                    xv.len() == xs@.len(),
                    yv.len() == ys@.len(),
                    forall|j: int| 0 <= j < xv.len() ==> #[trigger] xv[j] == xs@[j]@,
                    forall|j: int| 0 <= j < yv.len() ==> #[trigger] yv[j] == ys@[j]@,
                    answers_order(xv, yv, 0) == answers_order(xv, yv, i as nat),
                    *b == AnswerNode::Tuple(*ys),
                decreases xs.len() - i,
            {
                proof {
                    let ghost v = *xs;
                    assert(decreases_to!(*a => (*a)->Tuple_0));
                    assert(decreases_to!(v => v@));
                    assert(decreases_to!(v@ => v@[i as int]));
                    assert(xv[i as int] == xs@[i as int]@);
                    assert(yv[i as int] == ys@[i as int]@);
                }
                let c = compare_answers(&xs[i], &ys[i]);
                if c != 0 {
                    return c;
                }
                i += 1;
            }
            if xs.len() < ys.len() {
                -1
            } else if xs.len() > ys.len() {
                1
            } else {
                0
            }
        },
        _ => 0,
    }
}

impl AnswerNode {
    pub fn is_generated_answer(&self) -> (r: bool)
        ensures
            r == is_generated(self@),
        decreases self,
    {
        match self {
            Self::Empty | Self::NanError(_) | Self::Variable(_) => false,
            Self::Integer(_) | Self::ExactDecimal { .. } => true,
            Self::Fraction { numerator, denominator } => numerator.is_generated_answer()
                && denominator.is_generated_answer(),
            Self::MixedFraction { whole, numerator, denominator } => whole.is_generated_answer()
                && numerator.is_generated_answer() && denominator.is_generated_answer(),
            Self::Root { radicand, index } => radicand.is_generated_answer() && match index {
                Some(i) => i.is_generated_answer(),
                None => true,
            },
            Self::Negative(v) | Self::PlusMinus(v) => v.is_generated_answer(),
            Self::Binary { left, right, .. } => left.is_generated_answer()
                && right.is_generated_answer(),
            Self::Tuple(items) => {
                let ghost tv = view_nodes(items@, items@.len());
                proof {
                    lemma_view_nodes(items@, items@.len());
                }
                let mut i: usize = 0;
                while i < items.len()
                    invariant
                        i <= items.len(),
                        *self == AnswerNode::Tuple(*items),
                        tv == view_nodes(items@, items@.len()),
                        tv.len() == items@.len(),
                        forall|j: int| 0 <= j < tv.len() ==> #[trigger] tv[j] == items@[j]@,
                        all_generated(tv, i as nat),
                    decreases items.len() - i,
                {
                    proof {
                        let ghost v = *items;
                        assert(decreases_to!(*self => (*self)->Tuple_0));
                        assert(decreases_to!(v => v@));
                        assert(decreases_to!(v@ => v@[i as int]));
                        assert(tv[i as int] == items@[i as int]@);
                    }
                    if !items[i].is_generated_answer() {
                        proof {
                            lemma_all_generated_prefix(tv, (i + 1) as nat, tv.len());
                        }
                        return false;
                    }
                    i += 1;
                }
                true
            },
        }
    }

    /// Appends the exact integer magnitudes of the tree (integers and decimal
    /// coefficients, left to right).
    pub fn exact_integer_magnitudes(&self, output: &mut Vec<u64>)
        ensures
            final(output)@ == old(output)@ + magnitudes(self@),
        decreases self,
    {
        match self {
            Self::Empty | Self::NanError(_) | Self::Variable(_) => {
                assert(old(output)@ + Seq::<u64>::empty() =~= old(output)@);
            },
            Self::Integer(v) => output.push(abs_u64(*v)),
            Self::ExactDecimal { coefficient, .. } => output.push(abs_u64(*coefficient)),
            Self::Fraction { numerator, denominator } => {
                numerator.exact_integer_magnitudes(output);
                denominator.exact_integer_magnitudes(output);
                assert(old(output)@ + magnitudes(self@) =~= old(output)@ + magnitudes(numerator@)
                    + magnitudes(denominator@));
            },
            Self::MixedFraction { whole, numerator, denominator } => {
                whole.exact_integer_magnitudes(output);
                numerator.exact_integer_magnitudes(output);
                denominator.exact_integer_magnitudes(output);
                assert(old(output)@ + magnitudes(self@) =~= old(output)@ + magnitudes(whole@)
                    + magnitudes(numerator@) + magnitudes(denominator@));
            },
            Self::Root { radicand, index } => {
                radicand.exact_integer_magnitudes(output);
                match index {
                    Some(i) => {
                        i.exact_integer_magnitudes(output);
                        assert(old(output)@ + magnitudes(self@) =~= old(output)@ + magnitudes(
                            radicand@,
                        ) + magnitudes(i@));
                    },
                    None => {
                        assert(old(output)@ + magnitudes(self@) =~= old(output)@ + magnitudes(
                            radicand@,
                        ) + Seq::<u64>::empty());
                    },
                }
            },
            Self::Negative(v) | Self::PlusMinus(v) => v.exact_integer_magnitudes(output),
            Self::Binary { left, right, .. } => {
                left.exact_integer_magnitudes(output);
                right.exact_integer_magnitudes(output);
                assert(old(output)@ + magnitudes(self@) =~= old(output)@ + magnitudes(left@)
                    + magnitudes(right@));
            },
            Self::Tuple(items) => {
                let ghost tv = view_nodes(items@, items@.len());
                let ghost start = old(output)@;
                proof {
                    lemma_view_nodes(items@, items@.len());
                }
                let mut i: usize = 0;
                while i < items.len()
                    invariant
                        i <= items.len(),
                        *self == AnswerNode::Tuple(*items),
                        tv == view_nodes(items@, items@.len()),
                        tv.len() == items@.len(),
                        forall|j: int| 0 <= j < tv.len() ==> #[trigger] tv[j] == items@[j]@,
                        output@ == start + magnitudes_of(tv, i as nat),
                    decreases items.len() - i,
                {
                    proof {
                        let ghost v = *items;
                        assert(decreases_to!(*self => (*self)->Tuple_0));
                        assert(decreases_to!(v => v@));
                        assert(decreases_to!(v@ => v@[i as int]));
                        assert(tv[i as int] == items@[i as int]@);
                    }
                    items[i].exact_integer_magnitudes(output);
                    proof {
                        assert(start + magnitudes_of(tv, (i + 1) as nat) =~= start + magnitudes_of(tv, i as nat)
                            + magnitudes(tv[i as int]));
                    }
                    i += 1;
                }
            },
        }
    }
}

pub proof fn lemma_all_generated_prefix(s: Seq<AnswerValue>, a: nat, b: nat)
    requires
        a <= b <= s.len(),
        !all_generated(s, a),
    ensures
        !all_generated(s, b),
    decreases b - a,
{
    if a < b {
        lemma_all_generated_prefix(s, a, (b - 1) as nat);
    }
}
} // verus!
