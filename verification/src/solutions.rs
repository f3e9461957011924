//! Solution sets: expansion of `±` into its branches, sign canonicalization,
//! solution ordering, and the tree predicates that grading reads.

use vstd::prelude::*;
use crate::answer::{
    abs_i64, abs_u64, answer_order, compare_answers, lemma_view_nodes, view_nodes, AnswerBinaryOperator,
    AnswerNode, AnswerValue,
};
use crate::exact::{gcd_spec, gcd_u64};
use crate::normalize::{normalize_answer, normalized};

verus! {

/// Models of a sequence of answer trees.
pub open spec fn views(s: Seq<AnswerNode>) -> Seq<AnswerValue> {
    s.map_values(|n: AnswerNode| n@)
}

pub proof fn lemma_views_push(s: Seq<AnswerNode>, x: AnswerNode)
    ensures
        views(s.push(x)) == views(s).push(x@),
{
    assert(views(s.push(x)) =~= views(s).push(x@));
}

pub proof fn lemma_views_insert(s: Seq<AnswerNode>, i: int, x: AnswerNode)
    requires
        0 <= i <= s.len(),
    ensures
        views(s.insert(i, x)) == views(s).insert(i, x@),
{
    assert(views(s.insert(i, x)) =~= views(s).insert(i, x@));
}

pub proof fn lemma_views_of_tuple(s: Seq<AnswerNode>)
    ensures
        view_nodes(s, s.len()) == views(s),
{
    lemma_view_nodes(s, s.len());
    assert(view_nodes(s, s.len()) =~= views(s));
}

/// A feature that a single node of an answer tree may show.
#[derive(Clone, Copy, Debug, PartialEq, Eq, Structural)]
pub enum NodeFeature {
    NanError,
    PlusMinus,
    ReducibleFraction,
    RedundantNegative,
    RedundantPlusMinus,
    RedundantDecimal,
}

/// An integer fraction `l / r` with a nonzero denominator that shares a
/// factor greater than one with its numerator.
pub open spec fn reducible_parts(n: AnswerValue, d: AnswerValue) -> bool {
    match (n, d) {
        (AnswerValue::Integer(l), AnswerValue::Integer(r)) => r != 0 && gcd_spec(abs_i64(l), abs_i64(r)) > 1,
        _ => false,
    }
}

/// Whether the canonical form of a value begins with a minus sign.
pub open spec fn starts_negative(v: AnswerValue) -> bool {
    match normalized(v) {
        AnswerValue::Negative(_) => true,
        AnswerValue::Integer(x) => x < 0,
        AnswerValue::ExactDecimal { coefficient, .. } => coefficient < 0,
        AnswerValue::Fraction { numerator, .. } => match *numerator {
            AnswerValue::Integer(x) => x < 0,
            _ => false,
        },
        _ => false,
    }
}

/// Whether the root node of `v` itself shows feature `k`.
pub open spec fn has_feature(k: NodeFeature, v: AnswerValue) -> bool {
    match k {
        NodeFeature::NanError => v is NanError,
        NodeFeature::PlusMinus => v is PlusMinus,
        NodeFeature::ReducibleFraction => match v {
            AnswerValue::Fraction { numerator, denominator } => reducible_parts(*numerator, *denominator),
            AnswerValue::MixedFraction { numerator, denominator, .. } => reducible_parts(
                *numerator,
                *denominator,
            ),
            _ => false,
        },
        NodeFeature::RedundantNegative => match v {
            AnswerValue::Negative(x) => starts_negative(*x),
            _ => false,
        },
        NodeFeature::RedundantPlusMinus => match v {
            AnswerValue::PlusMinus(x) => *x is PlusMinus,
            _ => false,
        },
        NodeFeature::RedundantDecimal => match v {
            AnswerValue::ExactDecimal { coefficient, scale } => scale == 0 || abs_i64(coefficient) % 10 == 0,
            _ => false,
        },
    }
}

/// Whether some node of `v` (the root or any descendant) shows feature `k`.
pub open spec fn some_node(k: NodeFeature, v: AnswerValue) -> bool
    decreases v, 0nat,
{
    has_feature(k, v) || match v {
        AnswerValue::Fraction { numerator, denominator } => some_node(k, *numerator) || some_node(
            k,
            *denominator,
        ),
        AnswerValue::MixedFraction { whole, numerator, denominator } => some_node(k, *whole) || some_node(
            k,
            *numerator,
        ) || some_node(k, *denominator),
        AnswerValue::Root { radicand, index } => some_node(k, *radicand) || match index {
            Some(i) => some_node(k, *i),
            None => false,
        },
        AnswerValue::Negative(x) => some_node(k, *x),
        AnswerValue::PlusMinus(x) => some_node(k, *x),
        AnswerValue::Binary { left, right, .. } => some_node(k, *left) || some_node(k, *right),
        AnswerValue::Tuple(vs) => some_node_from(k, vs, 0),
        _ => false,
    }
}

/// Whether some node of the items of `vs` from position `i` on shows `k`.
pub open spec fn some_node_from(k: NodeFeature, vs: Seq<AnswerValue>, i: nat) -> bool
    decreases vs, vs.len() - i,
{
    if i >= vs.len() {
        false
    } else {
        some_node(k, vs[i as int]) || some_node_from(k, vs, i + 1)
    }
}

pub open spec fn contains_nan(v: AnswerValue) -> bool {
    some_node(NodeFeature::NanError, v)
}

pub open spec fn contains_pm(v: AnswerValue) -> bool {
    some_node(NodeFeature::PlusMinus, v)
}

/// A `±` below the root: the answer mixes `±` into a larger expression.
pub open spec fn embedded_pm(v: AnswerValue) -> bool {
    !(v is PlusMinus) && contains_pm(v)
}

fn starts_negative_exec(answer: &AnswerNode) -> (r: bool)
    ensures
        r == starts_negative(answer@),
{
    let n = normalize_answer(answer);
    proof {
        reveal_with_fuel(crate::answer::view_node, 2);
    }
    match &n {
        AnswerNode::Negative(_) => true,
        AnswerNode::Integer(x) => *x < 0,
        AnswerNode::ExactDecimal { coefficient, .. } => *coefficient < 0,
        AnswerNode::Fraction { numerator, .. } => match &**numerator {
            AnswerNode::Integer(x) => *x < 0,
            _ => false,
        },
        _ => false,
    }
}

fn reducible_parts_exec(n: &AnswerNode, d: &AnswerNode) -> (r: bool)
    ensures
        r == reducible_parts(n@, d@),
{
    match (n, d) {
        (AnswerNode::Integer(l), AnswerNode::Integer(r)) => *r != 0 && gcd_u64(abs_u64(*l), abs_u64(*r))
            > 1,
        _ => false,
    }
}

fn has_feature_exec(k: NodeFeature, answer: &AnswerNode) -> (r: bool)
    ensures
        r == has_feature(k, answer@),
{
    proof {
        reveal_with_fuel(crate::answer::view_node, 2);
    }
    match k {
        NodeFeature::NanError => matches!(answer, AnswerNode::NanError(_)),
        NodeFeature::PlusMinus => matches!(answer, AnswerNode::PlusMinus(_)),
        NodeFeature::ReducibleFraction => match answer {
            AnswerNode::Fraction { numerator, denominator } => reducible_parts_exec(numerator, denominator),
            AnswerNode::MixedFraction { numerator, denominator, .. } => reducible_parts_exec(
                numerator,
                denominator,
            ),
            _ => false,
        },
        NodeFeature::RedundantNegative => match answer {
            AnswerNode::Negative(x) => starts_negative_exec(x),
            _ => false,
        },
        NodeFeature::RedundantPlusMinus => match answer {
            AnswerNode::PlusMinus(x) => matches!(&**x, AnswerNode::PlusMinus(_)),
            _ => false,
        },
        NodeFeature::RedundantDecimal => match answer {
            AnswerNode::ExactDecimal { coefficient, scale } => *scale == 0 || abs_u64(*coefficient) % 10
                == 0,
            _ => false,
        },
    }
}

/// Searches the whole tree for a node with feature `k`.
pub(crate) fn any_node(k: NodeFeature, answer: &AnswerNode) -> (r: bool)
    ensures
        r == some_node(k, answer@),
    decreases answer,
{
    if has_feature_exec(k, answer) {
        return true;
    }
    match answer {
        AnswerNode::Fraction { numerator, denominator } => {
            any_node(k, numerator) || any_node(k, denominator)
        },
        AnswerNode::MixedFraction { whole, numerator, denominator } => any_node(k, whole) || any_node(
            k,
            numerator,
        ) || any_node(k, denominator),
        AnswerNode::Root { radicand, index } => {
            if any_node(k, radicand) {
                return true;
            }
            match index {
                Some(i) => any_node(k, i),
                None => false,
            }
        },
        AnswerNode::Negative(x) => any_node(k, x),
        AnswerNode::PlusMinus(x) => any_node(k, x),
        AnswerNode::Binary { left, right, .. } => any_node(k, left) || any_node(k, right),
        AnswerNode::Tuple(values) => {
            let ghost tv = views(values@);
            proof {
                lemma_views_of_tuple(values@);
            }
            let mut i: usize = 0;
            while i < values.len()
                invariant
                    *answer == AnswerNode::Tuple(*values),
                    tv == views(values@),
                    answer@ == AnswerValue::Tuple(tv),
                    some_node(k, answer@) == some_node_from(k, tv, i as nat),
                    i <= values@.len(),
                decreases values@.len() - i,
            {
                proof {
                    let ghost v = *values;
                    assert(decreases_to!(*answer => (*answer)->Tuple_0));
                    assert(decreases_to!(v => v@));
                    assert(decreases_to!(v@ => v@[i as int]));
                }
                if any_node(k, &values[i]) {
                    return true;
                }
                i += 1;
            }
            false
        },
        _ => false,
    }
}


/// The largest number of branches a `±` expansion may produce.
pub const MAX_SOLUTION_BRANCHES: usize = 4;

pub open spec fn limited(s: Seq<AnswerValue>) -> Option<Seq<AnswerValue>> {
    if s.len() > MAX_SOLUTION_BRANCHES {
        None
    } else {
        Some(s)
    }
}

pub open spec fn option_views(r: Option<Vec<AnswerNode>>) -> Option<Seq<AnswerValue>> {
    match r {
        Some(v) => Some(views(v@)),
        None => None,
    }
}

pub proof fn lemma_take_step<A>(s: Seq<A>, i: int)
    requires
        0 <= i < s.len(),
    ensures
        s.take(i + 1).drop_last() == s.take(i),
        s.take(i + 1).last() == s[i],
        s.take(i + 1).len() == i + 1,
{
    assert(s.take(i + 1).drop_last() =~= s.take(i));
}

/// Each value followed by its negation.
pub open spec fn signed_pairs(e: Seq<AnswerValue>) -> Seq<AnswerValue>
    decreases e.len(),
{
    if e.len() == 0 {
        Seq::empty()
    } else {
        signed_pairs(e.drop_last()).push(e.last()).push(AnswerValue::Negative(Box::new(e.last())))
    }
}

/// Each value negated.
pub open spec fn negated(e: Seq<AnswerValue>) -> Seq<AnswerValue>
    decreases e.len(),
{
    if e.len() == 0 {
        Seq::empty()
    } else {
        negated(e.drop_last()).push(AnswerValue::Negative(Box::new(e.last())))
    }
}

/// How two branch lists are combined into one node.
#[derive(Clone, Copy, Debug, PartialEq, Eq, Structural)]
pub enum BranchKind {
    Fraction,
    Root,
    Binary(AnswerBinaryOperator),
}

/// The node built from one left and one right branch; an empty right branch
/// of a root stands for a missing index.
pub open spec fn branch_value(kind: BranchKind, l: AnswerValue, r: AnswerValue) -> AnswerValue {
    match kind {
        BranchKind::Fraction => AnswerValue::Fraction { numerator: Box::new(l), denominator: Box::new(r) },
        BranchKind::Root => AnswerValue::Root {
            radicand: Box::new(l),
            index: if r is Empty {
                None
            } else {
                Some(Box::new(r))
            },
        },
        BranchKind::Binary(operator) => AnswerValue::Binary {
            operator,
            left: Box::new(l),
            right: Box::new(r),
        },
    }
}

pub open spec fn branch_row(kind: BranchKind, l: AnswerValue, rs: Seq<AnswerValue>) -> Seq<AnswerValue>
    decreases rs.len(),
{
    if rs.len() == 0 {
        Seq::empty()
    } else {
        branch_row(kind, l, rs.drop_last()).push(branch_value(kind, l, rs.last()))
    }
}

/// Every left branch with every right branch, left-major.
pub open spec fn branches(kind: BranchKind, ls: Seq<AnswerValue>, rs: Seq<AnswerValue>) -> Seq<AnswerValue>
    decreases ls.len(),
{
    if ls.len() == 0 {
        Seq::empty()
    } else {
        branches(kind, ls.drop_last(), rs) + branch_row(kind, ls.last(), rs)
    }
}

pub open spec fn mixed_row(w: AnswerValue, n: AnswerValue, ds: Seq<AnswerValue>) -> Seq<AnswerValue>
    decreases ds.len(),
{
    if ds.len() == 0 {
        Seq::empty()
    } else {
        mixed_row(w, n, ds.drop_last()).push(
            AnswerValue::MixedFraction { whole: Box::new(w), numerator: Box::new(n), denominator: Box::new(ds.last()) },
        )
    }
}

pub open spec fn mixed_grid(w: AnswerValue, ns: Seq<AnswerValue>, ds: Seq<AnswerValue>) -> Seq<AnswerValue>
    decreases ns.len(),
{
    if ns.len() == 0 {
        Seq::empty()
    } else {
        mixed_grid(w, ns.drop_last(), ds) + mixed_row(w, ns.last(), ds)
    }
}

/// Every whole, numerator and denominator branch, whole-major.
pub open spec fn mixed_branches(ws: Seq<AnswerValue>, ns: Seq<AnswerValue>, ds: Seq<AnswerValue>) -> Seq<AnswerValue>
    decreases ws.len(),
{
    if ws.len() == 0 {
        Seq::empty()
    } else {
        mixed_branches(ws.drop_last(), ns, ds) + mixed_grid(ws.last(), ns, ds)
    }
}

/// The branches of an answer when each `±` is read as both signs; `None`
/// when some step would produce more than `MAX_SOLUTION_BRANCHES` branches.
pub open spec fn expand(v: AnswerValue) -> Option<Seq<AnswerValue>>
    decreases v, 0nat,
{
    match v {
        AnswerValue::PlusMinus(x) => match expand(*x) {
            Some(e) => limited(signed_pairs(e)),
            None => None,
        },
        AnswerValue::Fraction { numerator, denominator } => match (expand(*numerator), expand(*denominator)) {
            (Some(a), Some(b)) => limited(branches(BranchKind::Fraction, a, b)),
            _ => None,
        },
        AnswerValue::MixedFraction { whole, numerator, denominator } => match (
            expand(*whole),
            expand(*numerator),
            expand(*denominator),
        ) {
            (Some(a), Some(b), Some(c)) => limited(mixed_branches(a, b, c)),
            _ => None,
        },
        AnswerValue::Root { radicand, index } => match expand(*radicand) {
            Some(a) => match index {
                Some(i) => match expand(*i) {
                    Some(b) => limited(branches(BranchKind::Root, a, b)),
                    None => None,
                },
                None => limited(branches(BranchKind::Root, a, seq![AnswerValue::Empty])),
            },
            None => None,
        },
        AnswerValue::Negative(x) => match expand(*x) {
            Some(e) => Some(negated(e)),
            None => None,
        },
        AnswerValue::Binary { operator, left, right } => match (expand(*left), expand(*right)) {
            (Some(a), Some(b)) => limited(branches(BranchKind::Binary(operator), a, b)),
            _ => None,
        },
        AnswerValue::Tuple(vs) => match expand_items(vs, vs.len()) {
            Some(c) => match limited(c) {
                Some(d) => Some(seq![AnswerValue::Tuple(d)]),
                None => None,
            },
            None => None,
        },
        _ => Some(seq![v]),
    }
}

/// The concatenated expansions of the first `k` items.
pub open spec fn expand_items(vs: Seq<AnswerValue>, k: nat) -> Option<Seq<AnswerValue>>
    decreases vs, k,
{
    if k == 0 || k > vs.len() {
        Some(Seq::empty())
    } else {
        match (expand_items(vs, (k - 1) as nat), expand(vs[k - 1])) {
            (Some(a), Some(b)) => Some(a + b),
            _ => None,
        }
    }
}

pub proof fn lemma_expand_items_none(vs: Seq<AnswerValue>, k: nat, m: nat)
    requires
        0 < k <= m <= vs.len(),
        expand_items(vs, k) is None,
    ensures
        expand_items(vs, m) is None,
    decreases m - k,
{
    if k < m {
        lemma_expand_items_none(vs, k, (m - 1) as nat);
    }
}

fn limit(values: Vec<AnswerNode>) -> (r: Option<Vec<AnswerNode>>)
    ensures
        option_views(r) == limited(views(values@)),
{
    if values.len() > MAX_SOLUTION_BRANCHES {
        None
    } else {
        Some(values)
    }
}

fn signed_pairs_of(e: &Vec<AnswerNode>) -> (r: Vec<AnswerNode>)
    ensures
        views(r@) == signed_pairs(views(e@)),
{
    let ghost ev = views(e@);
    let mut values: Vec<AnswerNode> = Vec::new();
    let mut i: usize = 0;
    while i < e.len()
        invariant
            ev == views(e@),
            i <= e@.len(),
            views(values@) == signed_pairs(ev.take(i as int)),
        decreases e@.len() - i,
    {
        proof {
            lemma_take_step(ev, i as int);
        }
        let x = e[i].duplicate();
        let y = AnswerNode::Negative(Box::new(e[i].duplicate()));
        proof {
            lemma_views_push(values@, x);
            lemma_views_push(values@.push(x), y);
        }
        values.push(x);
        values.push(y);
        i += 1;
    }
    proof {
        assert(ev.take(e@.len() as int) =~= ev);
    }
    values
}

fn negated_of(e: &Vec<AnswerNode>) -> (r: Vec<AnswerNode>)
    ensures
        views(r@) == negated(views(e@)),
{
    let ghost ev = views(e@);
    let mut values: Vec<AnswerNode> = Vec::new();
    let mut i: usize = 0;
    while i < e.len()
        invariant
            ev == views(e@),
            i <= e@.len(),
            views(values@) == negated(ev.take(i as int)),
        decreases e@.len() - i,
    {
        proof {
            lemma_take_step(ev, i as int);
        }
        let y = AnswerNode::Negative(Box::new(e[i].duplicate()));
        proof {
            lemma_views_push(values@, y);
        }
        values.push(y);
        i += 1;
    }
    proof {
        assert(ev.take(e@.len() as int) =~= ev);
    }
    values
}

fn build_branch(kind: BranchKind, l: &AnswerNode, r: &AnswerNode) -> (n: AnswerNode)
    ensures
        n@ == branch_value(kind, l@, r@),
{
    match kind {
        BranchKind::Fraction => AnswerNode::Fraction {
            numerator: Box::new(l.duplicate()),
            denominator: Box::new(r.duplicate()),
        },
        BranchKind::Root => AnswerNode::Root {
            radicand: Box::new(l.duplicate()),
            index: if r.is_empty() {
                None
            } else {
                Some(Box::new(r.duplicate()))
            },
        },
        BranchKind::Binary(operator) => AnswerNode::Binary {
            operator,
            left: Box::new(l.duplicate()),
            right: Box::new(r.duplicate()),
        },
    }
}

/// Every left branch combined with every right branch, left-major.
fn combine_branches(left: &Vec<AnswerNode>, right: &Vec<AnswerNode>, kind: BranchKind) -> (r: Vec<AnswerNode>)
    ensures
        views(r@) == branches(kind, views(left@), views(right@)),
{
    let ghost lv = views(left@);
    let ghost rv = views(right@);
    let mut values: Vec<AnswerNode> = Vec::new();
    let mut i: usize = 0;
    while i < left.len()
        invariant
            lv == views(left@),
            rv == views(right@),
            i <= left@.len(),
            views(values@) == branches(kind, lv.take(i as int), rv),
        decreases left@.len() - i,
    {
        proof {
            lemma_take_step(lv, i as int);
        }
        let ghost before = views(values@);
        let mut j: usize = 0;
        while j < right.len()
            invariant
                lv == views(left@),
                rv == views(right@),
                i < left@.len(),
                j <= right@.len(),
                views(values@) == before + branch_row(kind, lv[i as int], rv.take(j as int)),
            decreases right@.len() - j,
        {
            proof {
                lemma_take_step(rv, j as int);
            }
            let x = build_branch(kind, &left[i], &right[j]);
            proof {
                lemma_views_push(values@, x);
                assert(before + branch_row(kind, lv[i as int], rv.take(j + 1)) =~= (before + branch_row(
                    kind,
                    lv[i as int],
                    rv.take(j as int),
                )).push(x@));
            }
            values.push(x);
            j += 1;
        }
        proof {
            assert(rv.take(right@.len() as int) =~= rv);
        }
        i += 1;
    }
    proof {
        assert(lv.take(left@.len() as int) =~= lv);
    }
    values
}

/// Every whole, numerator and denominator branch as a mixed fraction.
fn combine_mixed(ws: &Vec<AnswerNode>, ns: &Vec<AnswerNode>, ds: &Vec<AnswerNode>) -> (r: Vec<AnswerNode>)
    ensures
        views(r@) == mixed_branches(views(ws@), views(ns@), views(ds@)),
{
    let ghost wv = views(ws@);
    let ghost nv = views(ns@);
    let ghost dv = views(ds@);
    let mut values: Vec<AnswerNode> = Vec::new();
    let mut i: usize = 0;
    while i < ws.len()
        invariant
            wv == views(ws@),
            nv == views(ns@),
            dv == views(ds@),
            i <= ws@.len(),
            views(values@) == mixed_branches(wv.take(i as int), nv, dv),
        decreases ws@.len() - i,
    {
        proof {
            lemma_take_step(wv, i as int);
        }
        let ghost before = views(values@);
        let mut j: usize = 0;
        while j < ns.len()
            invariant
                wv == views(ws@),
                nv == views(ns@),
                dv == views(ds@),
                i < ws@.len(),
                j <= ns@.len(),
                views(values@) == before + mixed_grid(wv[i as int], nv.take(j as int), dv),
            decreases ns@.len() - j,
        {
            proof {
                lemma_take_step(nv, j as int);
            }
            let ghost middle = views(values@);
            let mut k: usize = 0;
            while k < ds.len()
                invariant
                    wv == views(ws@),
                    nv == views(ns@),
                    dv == views(ds@),
                    i < ws@.len(),
                    j < ns@.len(),
                    k <= ds@.len(),
                    views(values@) == middle + mixed_row(wv[i as int], nv[j as int], dv.take(k as int)),
                decreases ds@.len() - k,
            {
                proof {
                    lemma_take_step(dv, k as int);
                }
                let x = AnswerNode::MixedFraction {
                    whole: Box::new(ws[i].duplicate()),
                    numerator: Box::new(ns[j].duplicate()),
                    denominator: Box::new(ds[k].duplicate()),
                };
                proof {
                    lemma_views_push(values@, x);
                    assert(middle + mixed_row(wv[i as int], nv[j as int], dv.take(k + 1)) =~= (middle
                        + mixed_row(wv[i as int], nv[j as int], dv.take(k as int))).push(x@));
                }
                values.push(x);
                k += 1;
            }
            proof {
                assert(dv.take(ds@.len() as int) =~= dv);
                assert(before + mixed_grid(wv[i as int], nv.take(j + 1), dv) =~= middle + mixed_row(
                    wv[i as int],
                    nv[j as int],
                    dv,
                ));
            }
            j += 1;
        }
        proof {
            assert(nv.take(ns@.len() as int) =~= nv);
        }
        i += 1;
    }
    proof {
        assert(wv.take(ws@.len() as int) =~= wv);
    }
    values
}

/// Reads each `±` of the answer as both signs and lists the resulting
/// branches; `None` when there would be more than `MAX_SOLUTION_BRANCHES`.
fn expand_plus_minus(answer: &AnswerNode) -> (r: Option<Vec<AnswerNode>>)
    ensures
        option_views(r) == expand(answer@),
    decreases answer, 1nat,
{
    match answer {
        AnswerNode::PlusMinus(value) => match expand_plus_minus(value) {
            Some(e) => limit(signed_pairs_of(&e)),
            None => None,
        },
        AnswerNode::Fraction { numerator, denominator } => {
            let a = expand_plus_minus(numerator);
            let b = expand_plus_minus(denominator);
            match (a, b) {
                (Some(a), Some(b)) => limit(combine_branches(&a, &b, BranchKind::Fraction)),
                _ => None,
            }
        },
        AnswerNode::MixedFraction { whole, numerator, denominator } => {
            let a = expand_plus_minus(whole);
            let b = expand_plus_minus(numerator);
            let c = expand_plus_minus(denominator);
            match (a, b, c) {
                (Some(a), Some(b), Some(c)) => limit(combine_mixed(&a, &b, &c)),
                _ => None,
            }
        },
        AnswerNode::Root { radicand, index } => {
            let a = match expand_plus_minus(radicand) {
                Some(a) => a,
                None => return None,
            };
            let b = match index {
                Some(i) => match expand_plus_minus(i) {
                    Some(b) => b,
                    None => return None,
                },
                None => {
                    let mut b: Vec<AnswerNode> = Vec::new();
                    b.push(AnswerNode::Empty);
                    proof {
                        assert(views(b@) =~= seq![AnswerValue::Empty]);
                    }
                    b
                },
            };
            limit(combine_branches(&a, &b, BranchKind::Root))
        },
        AnswerNode::Negative(value) => match expand_plus_minus(value) {
            Some(e) => Some(negated_of(&e)),
            None => None,
        },
        AnswerNode::Binary { operator, left, right } => {
            let a = expand_plus_minus(left);
            let b = expand_plus_minus(right);
            match (a, b) {
                (Some(a), Some(b)) => limit(combine_branches(&a, &b, BranchKind::Binary(*operator))),
                _ => None,
            }
        },
        AnswerNode::Tuple(values) => {
            proof {
                lemma_views_of_tuple(values@);
            }
            match expand_item_list(values) {
                Some(c) => match limit(c) {
                    Some(d) => {
                        let mut out: Vec<AnswerNode> = Vec::new();
                        let t = AnswerNode::Tuple(d);
                        proof {
                            lemma_views_of_tuple(d@);
                            lemma_views_push(out@, t);
                            assert(views(out@.push(t)) =~= seq![t@]);
                        }
                        out.push(t);
                        Some(out)
                    },
                    None => None,
                },
                None => None,
            }
        },
        _ => {
            let mut out: Vec<AnswerNode> = Vec::new();
            let t = answer.duplicate();
            proof {
                lemma_views_push(out@, t);
                assert(views(out@.push(t)) =~= seq![t@]);
            }
            out.push(t);
            Some(out)
        },
    }
}

/// The concatenated expansions of all items of a list.
fn expand_item_list(items: &Vec<AnswerNode>) -> (r: Option<Vec<AnswerNode>>)
    ensures
        option_views(r) == expand_items(views(items@), items@.len()),
    decreases items, 0nat,
{
    let ghost iv = views(items@);
    let mut values: Vec<AnswerNode> = Vec::new();
    let mut i: usize = 0;
    while i < items.len()
        invariant
            iv == views(items@),
            i <= items@.len(),
            expand_items(iv, i as nat) == Some(views(values@)),
        decreases items@.len() - i,
    {
        proof {
            let ghost v = *items;
            assert(decreases_to!(v => v@));
            assert(decreases_to!(v@ => v@[i as int]));
        }
        match expand_plus_minus(&items[i]) {
            Some(mut e) => {
                proof {
                    assert(views(values@ + e@) =~= views(values@) + views(e@));
                }
                values.append(&mut e);
            },
            None => {
                proof {
                    lemma_expand_items_none(iv, (i + 1) as nat, items@.len() as nat);
                }
                return None;
            },
        }
        i += 1;
    }
    Some(values)
}


/// `a + (-b)` becomes `a - b` and `a - (-b)` becomes `a + b`, bottom-up,
/// below fractions, roots and negations.
pub open spec fn canon_signs(v: AnswerValue) -> AnswerValue
    decreases v,
{
    match v {
        AnswerValue::Binary { operator, left, right } => {
            let l = canon_signs(*left);
            let r = canon_signs(*right);
            match r {
                AnswerValue::Negative(x) => match operator {
                    AnswerBinaryOperator::Add => AnswerValue::Binary {
                        operator: AnswerBinaryOperator::Subtract,
                        left: Box::new(l),
                        right: x,
                    },
                    AnswerBinaryOperator::Subtract => AnswerValue::Binary {
                        operator: AnswerBinaryOperator::Add,
                        left: Box::new(l),
                        right: x,
                    },
                    _ => AnswerValue::Binary { operator, left: Box::new(l), right: Box::new(r) },
                },
                _ => AnswerValue::Binary { operator, left: Box::new(l), right: Box::new(r) },
            }
        },
        AnswerValue::Fraction { numerator, denominator } => AnswerValue::Fraction {
            numerator: Box::new(canon_signs(*numerator)),
            denominator: Box::new(canon_signs(*denominator)),
        },
        AnswerValue::Root { radicand, index } => AnswerValue::Root {
            radicand: Box::new(canon_signs(*radicand)),
            index: match index {
                Some(i) => Some(Box::new(canon_signs(*i))),
                None => None,
            },
        },
        AnswerValue::Negative(x) => AnswerValue::Negative(Box::new(canon_signs(*x))),
        _ => v,
    }
}

fn canonicalize_algebraic_signs(answer: &AnswerNode) -> (r: AnswerNode)
    ensures
        r@ == canon_signs(answer@),
    decreases answer,
{
    match answer {
        AnswerNode::Binary { operator, left, right } => {
            let l = canonicalize_algebraic_signs(left);
            let r = canonicalize_algebraic_signs(right);
            match r {
                AnswerNode::Negative(x) => match operator {
                    AnswerBinaryOperator::Add => AnswerNode::Binary {
                        operator: AnswerBinaryOperator::Subtract,
                        left: Box::new(l),
                        right: x,
                    },
                    AnswerBinaryOperator::Subtract => AnswerNode::Binary {
                        operator: AnswerBinaryOperator::Add,
                        left: Box::new(l),
                        right: x,
                    },
                    _ => AnswerNode::Binary {
                        operator: *operator,
                        left: Box::new(l),
                        right: Box::new(AnswerNode::Negative(x)),
                    },
                },
                _ => AnswerNode::Binary { operator: *operator, left: Box::new(l), right: Box::new(r) },
            }
        },
        AnswerNode::Fraction { numerator, denominator } => AnswerNode::Fraction {
            numerator: Box::new(canonicalize_algebraic_signs(numerator)),
            denominator: Box::new(canonicalize_algebraic_signs(denominator)),
        },
        AnswerNode::Root { radicand, index } => AnswerNode::Root {
            radicand: Box::new(canonicalize_algebraic_signs(radicand)),
            index: match index {
                Some(i) => Some(Box::new(canonicalize_algebraic_signs(i))),
                None => None,
            },
        },
        AnswerNode::Negative(x) => AnswerNode::Negative(Box::new(canonicalize_algebraic_signs(x))),
        _ => answer.duplicate(),
    }
}

/// The position at which `x` enters the sorted `s`: after every element
/// that does not order above it, scanning from position `k` down.
pub open spec fn insert_position(s: Seq<AnswerValue>, x: AnswerValue, k: nat) -> nat
    decreases k,
{
    if k == 0 {
        0
    } else if answer_order(s[k - 1], x) > 0 {
        insert_position(s, x, (k - 1) as nat)
    } else {
        k
    }
}

/// `s` sorted ascending by `answer_order`; equal elements keep their order.
pub open spec fn sort_values(s: Seq<AnswerValue>) -> Seq<AnswerValue>
    decreases s.len(),
{
    if s.len() == 0 {
        s
    } else {
        let t = sort_values(s.drop_last());
        t.insert(insert_position(t, s.last(), t.len()) as int, s.last())
    }
}

/// A copy of `values` sorted ascending; equal elements keep their order.
pub(crate) fn sort_answers(values: &Vec<AnswerNode>) -> (r: Vec<AnswerNode>)
    ensures
        views(r@) == sort_values(views(values@)),
{
    let ghost sv = views(values@);
    let mut sorted: Vec<AnswerNode> = Vec::new();
    let mut i: usize = 0;
    while i < values.len()
        invariant
            sv == views(values@),
            i <= values@.len(),
            views(sorted@) == sort_values(sv.take(i as int)),
        decreases values@.len() - i,
    {
        proof {
            lemma_take_step(sv, i as int);
        }
        let x = values[i].duplicate();
        let ghost t = views(sorted@);
        let mut k: usize = sorted.len();
        loop
            invariant_except_break
                t == views(sorted@),
                k <= sorted@.len(),
                insert_position(t, x@, t.len()) == insert_position(t, x@, k as nat),
            ensures
                t == views(sorted@),
                k <= sorted@.len(),
                insert_position(t, x@, t.len()) == k,
            decreases k,
        {
            if k == 0 {
                break;
            }
            if compare_answers(&sorted[k - 1], &x) <= 0 {
                break;
            }
            k -= 1;
        }
        proof {
            lemma_views_insert(sorted@, k as int, x);
        }
        sorted.insert(k, x);
        i += 1;
    }
    proof {
        assert(sv.take(values@.len() as int) =~= sv);
    }
    sorted
}

/// Sorts the items of every list, bottom-up, so that solution lists compare
/// independently of the order in which they were written.
pub open spec fn canon_order(v: AnswerValue) -> AnswerValue
    decreases v, 1nat,
{
    match v {
        AnswerValue::Tuple(vs) => AnswerValue::Tuple(sort_values(canon_orders(vs, vs.len()))),
        AnswerValue::Fraction { numerator, denominator } => AnswerValue::Fraction {
            numerator: Box::new(canon_order(*numerator)),
            denominator: Box::new(canon_order(*denominator)),
        },
        AnswerValue::MixedFraction { whole, numerator, denominator } => AnswerValue::MixedFraction {
            whole: Box::new(canon_order(*whole)),
            numerator: Box::new(canon_order(*numerator)),
            denominator: Box::new(canon_order(*denominator)),
        },
        AnswerValue::Root { radicand, index } => AnswerValue::Root {
            radicand: Box::new(canon_order(*radicand)),
            index: match index {
                Some(i) => Some(Box::new(canon_order(*i))),
                None => None,
            },
        },
        AnswerValue::Negative(x) => AnswerValue::Negative(Box::new(canon_order(*x))),
        AnswerValue::PlusMinus(x) => AnswerValue::PlusMinus(Box::new(canon_order(*x))),
        AnswerValue::Binary { operator, left, right } => AnswerValue::Binary {
            operator,
            left: Box::new(canon_order(*left)),
            right: Box::new(canon_order(*right)),
        },
        _ => v,
    }
}

pub open spec fn canon_orders(vs: Seq<AnswerValue>, k: nat) -> Seq<AnswerValue>
    decreases vs, k,
{
    if k == 0 || k > vs.len() {
        Seq::empty()
    } else {
        canon_orders(vs, (k - 1) as nat).push(canon_order(vs[k - 1]))
    }
}

fn canonicalize_solution_order(answer: &AnswerNode) -> (r: AnswerNode)
    ensures
        r@ == canon_order(answer@),
    decreases answer,
{
    match answer {
        AnswerNode::Tuple(values) => {
            let ghost tv = views(values@);
            proof {
                lemma_views_of_tuple(values@);
            }
            let mut items: Vec<AnswerNode> = Vec::new();
            let mut i: usize = 0;
            while i < values.len()
                invariant
                    *answer == AnswerNode::Tuple(*values),
                    tv == views(values@),
                    i <= values@.len(),
                    views(items@) == canon_orders(tv, i as nat),
                decreases values@.len() - i,
            {
                proof {
                    let ghost v = *values;
                    assert(decreases_to!(*answer => (*answer)->Tuple_0));
                    assert(decreases_to!(v => v@));
                    assert(decreases_to!(v@ => v@[i as int]));
                }
                let c = canonicalize_solution_order(&values[i]);
                proof {
                    lemma_views_push(items@, c);
                }
                items.push(c);
                i += 1;
            }
            let sorted = sort_answers(&items);
            proof {
                lemma_views_of_tuple(sorted@);
            }
            AnswerNode::Tuple(sorted)
        },
        AnswerNode::Fraction { numerator, denominator } => AnswerNode::Fraction {
            numerator: Box::new(canonicalize_solution_order(numerator)),
            denominator: Box::new(canonicalize_solution_order(denominator)),
        },
        AnswerNode::MixedFraction { whole, numerator, denominator } => AnswerNode::MixedFraction {
            whole: Box::new(canonicalize_solution_order(whole)),
            numerator: Box::new(canonicalize_solution_order(numerator)),
            denominator: Box::new(canonicalize_solution_order(denominator)),
        },
        AnswerNode::Root { radicand, index } => AnswerNode::Root {
            radicand: Box::new(canonicalize_solution_order(radicand)),
            index: match index {
                Some(i) => Some(Box::new(canonicalize_solution_order(i))),
                None => None,
            },
        },
        AnswerNode::Negative(x) => AnswerNode::Negative(Box::new(canonicalize_solution_order(x))),
        AnswerNode::PlusMinus(x) => AnswerNode::PlusMinus(Box::new(canonicalize_solution_order(x))),
        AnswerNode::Binary { operator, left, right } => AnswerNode::Binary {
            operator: *operator,
            left: Box::new(canonicalize_solution_order(left)),
            right: Box::new(canonicalize_solution_order(right)),
        },
        _ => answer.duplicate(),
    }
}


/// The canonical form of one solution branch.
pub open spec fn solution_form(v: AnswerValue) -> AnswerValue {
    normalized(canon_signs(normalized(v)))
}

pub open spec fn solution_forms(s: Seq<AnswerValue>) -> Seq<AnswerValue>
    decreases s.len(),
{
    if s.len() == 0 {
        Seq::empty()
    } else {
        solution_forms(s.drop_last()).push(solution_form(s.last()))
    }
}

/// The branches that an answer stands for: the expanded items of a list, or
/// the expansion of a single answer.
pub open spec fn solution_candidates(v: AnswerValue) -> Option<Seq<AnswerValue>> {
    match v {
        AnswerValue::Tuple(vs) => match expand_items(vs, vs.len()) {
            Some(c) => limited(c),
            None => None,
        },
        _ => expand(v),
    }
}

/// The sorted canonical solutions of an answer.
pub open spec fn solutions_of(v: AnswerValue) -> Option<Seq<AnswerValue>> {
    match solution_candidates(v) {
        Some(c) => Some(sort_values(solution_forms(c))),
        None => None,
    }
}

/// Two normalized answers denote the same solutions: equal up to list order,
/// or equal as sets of `±` branches. A single value and a list are compared
/// as sets only where the single value holds a `±`.
pub open spec fn solutions_equal(l: AnswerValue, r: AnswerValue) -> bool {
    let cl = canon_order(l);
    let cr = canon_order(r);
    if cl == cr {
        true
    } else if (cl is Tuple) != (cr is Tuple) && !contains_pm(
        if cl is Tuple {
            cr
        } else {
            cl
        },
    ) {
        false
    } else {
        match (solutions_of(cl), solutions_of(cr)) {
            (Some(a), Some(b)) => a == b,
            _ => false,
        }
    }
}

/// Element-wise structural equality of two answer lists.
pub(crate) fn nodes_equal(a: &Vec<AnswerNode>, b: &Vec<AnswerNode>) -> (r: bool)
    ensures
        r == (views(a@) == views(b@)),
{
    if a.len() != b.len() {
        proof {
            assert(views(a@).len() != views(b@).len());
        }
        return false;
    }
    let mut i: usize = 0;
    while i < a.len()
        invariant
            a@.len() == b@.len(),
            i <= a@.len(),
            forall|j: int| 0 <= j < i ==> #[trigger] views(a@)[j] == views(b@)[j],
        decreases a@.len() - i,
    {
        if !crate::answer::answers_equal(&a[i], &b[i]) {
            proof {
                assert(views(a@)[i as int] != views(b@)[i as int]);
            }
            return false;
        }
        i += 1;
    }
    proof {
        assert(views(a@) =~= views(b@));
    }
    true
}

/// The sorted canonical solutions of an answer, or `None` when its
/// expansion exceeds `MAX_SOLUTION_BRANCHES`.
pub(crate) fn solution_set(answer: &AnswerNode) -> (r: Option<Vec<AnswerNode>>)
    ensures
        option_views(r) == solutions_of(answer@),
{
    let raw = match answer {
        AnswerNode::Tuple(items) => {
            proof {
                lemma_views_of_tuple(items@);
            }
            match expand_item_list(items) {
                Some(c) => limit(c),
                None => None,
            }
        },
        _ => expand_plus_minus(answer),
    };
    let raw = match raw {
        Some(raw) => raw,
        None => return None,
    };
    let ghost rv = views(raw@);
    let mut forms: Vec<AnswerNode> = Vec::new();
    let mut i: usize = 0;
    while i < raw.len()
        invariant
            rv == views(raw@),
            i <= raw@.len(),
            views(forms@) == solution_forms(rv.take(i as int)),
        decreases raw@.len() - i,
    {
        proof {
            lemma_take_step(rv, i as int);
        }
        let first = normalize_answer(&raw[i]);
        let signed = canonicalize_algebraic_signs(&first);
        let form = normalize_answer(&signed);
        proof {
            lemma_views_push(forms@, form);
        }
        forms.push(form);
        i += 1;
    }
    proof {
        assert(rv.take(raw@.len() as int) =~= rv);
    }
    Some(sort_answers(&forms))
}

pub(crate) fn contains_plus_minus(answer: &AnswerNode) -> (r: bool)
    ensures
        r == contains_pm(answer@),
{
    any_node(NodeFeature::PlusMinus, answer)
}

/// Whether two normalized answers denote the same solutions.
pub(crate) fn solutions_mathematically_equal(left: &AnswerNode, right: &AnswerNode) -> (r: bool)
    ensures
        r == solutions_equal(left@, right@),
{
    let left = canonicalize_solution_order(left);
    let right = canonicalize_solution_order(right);
    if crate::answer::answers_equal(&left, &right) {
        return true;
    }
    let left_is_list = matches!(left, AnswerNode::Tuple(_));
    let right_is_list = matches!(right, AnswerNode::Tuple(_));
    if left_is_list != right_is_list {
        let single = if left_is_list {
            &right
        } else {
            &left
        };
        if !contains_plus_minus(single) {
            return false;
        }
    }
    match (solution_set(&left), solution_set(&right)) {
        (Some(a), Some(b)) => nodes_equal(&a, &b),
        _ => false,
    }
}

} // verus!
