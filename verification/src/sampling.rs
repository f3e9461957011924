//! Sampling a worksheet: validated layer specifications, how many problems
//! each layer receives, and the seeded choice and order of a worksheet's
//! problems from a pool of candidates.

use vstd::prelude::*;
use vstd::set_lib::{lemma_int_range, lemma_len_subset, lemma_map_size, set_int_range};
use crate::effort::{insert_sorted, sort_exec, sorted_seq};
use crate::error::SamplingError;
use crate::rng::{bounded_draw, lemma_bounded_draw_below, DeterministicRng, MAX_REJECTED_DRAWS};
use crate::theme::SamplingLayerSpec;

verus! {

/// The sum of the layers' minimum counts.
pub open spec fn minimum_total(specs: Seq<SamplingLayerSpec>) -> nat
    decreases specs.len(),
{
    if specs.len() == 0 {
        0
    } else {
        minimum_total(specs.drop_last()) + (specs.last().minimum as nat)
    }
}

/// The sum of the layers' weights.
pub open spec fn weight_total(specs: Seq<SamplingLayerSpec>) -> nat
    decreases specs.len(),
{
    if specs.len() == 0 {
        0
    } else {
        weight_total(specs.drop_last()) + (specs.last().weight as nat)
    }
}

/// The whole part of a layer's weighted share of `remaining`.
pub open spec fn layer_share(remaining: nat, weight: u32, total: nat) -> nat {
    (remaining * (weight as nat)) / total
}

/// The fractional part of a layer's weighted share, in units of `1/total`.
pub open spec fn layer_rest(remaining: nat, weight: u32, total: nat) -> nat {
    (remaining * (weight as nat)) % total
}

/// The whole part of each layer's weighted share of `remaining`, summed.
pub open spec fn share_total(specs: Seq<SamplingLayerSpec>, remaining: nat, total: nat) -> nat
    decreases specs.len(),
{
    if specs.len() == 0 {
        0
    } else {
        share_total(specs.drop_last(), remaining, total) + layer_share(remaining, specs.last().weight, total)
    }
}

/// How many layers come before layer `i` when layers are ordered by the
/// fractional part of their share, largest first, ties by position: the
/// layers `j < k` so placed.
pub open spec fn rank_among(specs: Seq<SamplingLayerSpec>, remaining: nat, total: nat, i: int, k: int) -> nat
    decreases k,
{
    if k <= 0 {
        0
    } else {
        let j = k - 1;
        let ri = layer_rest(remaining, specs[i].weight, total);
        let rj = layer_rest(remaining, specs[j].weight, total);
        rank_among(specs, remaining, total, i, j) + if rj > ri || (rj == ri && j < i) {
            1nat
        } else {
            0nat
        }
    }
}

/// The problems that layer `i` of a worksheet of `problem_count` receives:
/// its minimum, then the rest shared out. With no weight, the rest goes
/// round the layers in turn. Otherwise each layer gets the whole part of
/// its weighted share, and the problems still left go one each to the
/// layers with the largest fractional parts (ties to the earlier layer).
pub open spec fn layer_quota(specs: Seq<SamplingLayerSpec>, problem_count: nat, i: int) -> nat {
    let remaining: nat = (problem_count - minimum_total(specs)) as nat;
    let n = specs.len();
    let total = weight_total(specs);
    (specs[i].minimum as nat) + if remaining == 0 {
        0
    } else if total == 0 {
        remaining / n + if i < remaining % n {
            1nat
        } else {
            0nat
        }
    } else {
        let extra = remaining - share_total(specs, remaining, total);
        layer_share(remaining, specs[i].weight, total) + if rank_among(specs, remaining, total, i, n as int) < extra {
            1nat
        } else {
            0nat
        }
    }
}

/// The layers of a layered sampling strategy: at least one, with minimums
/// that fit the worksheet.
pub struct SamplingLayers {
    specs: Vec<SamplingLayerSpec>,
}

impl View for SamplingLayers {
    type V = Seq<SamplingLayerSpec>;

    closed spec fn view(&self) -> Seq<SamplingLayerSpec> {
        self.specs@
    }
}

/// A layer number checked against the layers it indexes.
#[derive(Clone, Copy, Debug, PartialEq, Eq, Structural)]
pub struct LayerIndex(usize);

impl View for LayerIndex {
    type V = usize;

    closed spec fn view(&self) -> usize {
        self.0
    }
}

impl LayerIndex {
    pub fn value(self) -> (r: usize)
        ensures
            r == self@,
    {
        self.0
    }
}

fn sum_minimums(specs: &Vec<SamplingLayerSpec>) -> (r: Option<usize>)
    ensures
        match r {
            Some(total) => total == minimum_total(specs@),
            None => minimum_total(specs@) > usize::MAX,
        },
{
    let mut total: usize = 0;
    let mut i: usize = 0;
    while i < specs.len()
        invariant
            i <= specs@.len(),
            total == minimum_total(specs@.take(i as int)),
        decreases specs@.len() - i,
    {
        proof {
            assert(specs@.take(i + 1).drop_last() =~= specs@.take(i as int));
        }
        match total.checked_add(specs[i].minimum) {
            Some(t) => total = t,
            None => {
                proof {
                    lemma_minimum_total_prefix(specs@, i + 1);
                }
                return None;
            },
        }
        i += 1;
    }
    proof {
        assert(specs@.take(specs@.len() as int) =~= specs@);
    }
    Some(total)
}

proof fn lemma_minimum_total_prefix(specs: Seq<SamplingLayerSpec>, k: int)
    requires
        0 <= k <= specs.len(),
    ensures
        minimum_total(specs.take(k)) <= minimum_total(specs),
    decreases specs.len() - k,
{
    if k < specs.len() {
        assert(specs.take(k + 1).drop_last() =~= specs.take(k));
        lemma_minimum_total_prefix(specs, k + 1);
    } else {
        assert(specs.take(k) =~= specs);
    }
}

impl SamplingLayers {
    /// The layers, refused when there are none or their minimums exceed
    /// the worksheet.
    pub fn new(specs: Vec<SamplingLayerSpec>, problem_count: usize) -> (r: Result<Self, SamplingError>)
        requires
            minimum_total(specs@) <= usize::MAX,
        ensures
            specs@.len() == 0 ==> r == Err::<Self, SamplingError>(SamplingError::EmptyLayers),
            specs@.len() > 0 && minimum_total(specs@) > problem_count ==> r == Err::<Self, SamplingError>(
                SamplingError::LayerMinimumExceedsWorksheet {
                    minimum_total: minimum_total(specs@) as usize,
                    problem_count,
                },
            ),
            specs@.len() > 0 && minimum_total(specs@) <= problem_count ==> (r matches Ok(layers) && layers@
                == specs@),
    {
        if specs.len() == 0 {
            return Err(SamplingError::EmptyLayers);
        }
        let total = match sum_minimums(&specs) {
            Some(t) => t,
            None => return Err(SamplingError::EmptyLayers),
        };
        if total > problem_count {
            return Err(SamplingError::LayerMinimumExceedsWorksheet { minimum_total: total, problem_count });
        }
        Ok(Self { specs })
    }

    pub fn specs(&self) -> (r: &[SamplingLayerSpec])
        ensures
            r@ == self@,
    {
        self.specs.as_slice()
    }

    /// A classifier's layer number, checked against the layers.
    pub fn index(&self, index: usize) -> (r: Result<LayerIndex, SamplingError>)
        ensures
            index < self@.len() ==> (r matches Ok(layer) && layer@ == index),
            index >= self@.len() ==> r == Err::<LayerIndex, SamplingError>(
                SamplingError::LayerOutOfRange { index, layer_count: self@.len() as usize },
            ),
    {
        if index < self.specs.len() {
            Ok(LayerIndex(index))
        } else {
            Err(SamplingError::LayerOutOfRange { index, layer_count: self.specs.len() })
        }
    }
}

/// How many problems each layer receives in a worksheet of
/// `problem_count`: see `layer_quota`.
pub fn layered_quotas(layers: &SamplingLayers, problem_count: usize) -> (r: Vec<usize>)
    requires
        layers@.len() > 0,
        minimum_total(layers@) <= problem_count,
        weight_total(layers@) <= u64::MAX,
    ensures
        r@.len() == layers@.len(),
        forall|i: int| 0 <= i < r@.len() ==> r@[i] == layer_quota(layers@, problem_count as nat, i),
{
    let specs = layers.specs();
    let ghost s = specs@;
    let n = specs.len();
    let mut minimum: usize = 0;
    let mut total: u64 = 0;
    let mut i: usize = 0;
    while i < n
        invariant
            n == s.len(),
            s == specs@,
            i <= n,
            minimum == minimum_total(s.take(i as int)),
            total == weight_total(s.take(i as int)),
            minimum_total(s) <= problem_count,
            weight_total(s) <= u64::MAX,
        decreases n - i,
    {
        proof {
            assert(s.take(i + 1).drop_last() =~= s.take(i as int));
            lemma_minimum_total_prefix(s, i + 1);
            lemma_weight_total_prefix(s, i + 1);
        }
        minimum = minimum + specs[i].minimum;
        total = total + specs[i].weight as u64;
        i += 1;
    }
    proof {
        assert(s.take(n as int) =~= s);
    }
    let remaining: usize = problem_count - minimum;
    let mut quotas: Vec<usize> = Vec::new();
    if remaining == 0 {
        let mut i: usize = 0;
        while i < n
            invariant
                n == s.len(),
                s == specs@,
                i <= n,
                remaining == 0,
                remaining == problem_count - minimum_total(s),
                quotas@.len() == i,
                forall|j: int| 0 <= j < i ==> quotas@[j] == layer_quota(s, problem_count as nat, j),
            decreases n - i,
        {
            quotas.push(specs[i].minimum);
            i += 1;
        }
        return quotas;
    }
    if total == 0 {
        let mut i: usize = 0;
        while i < n
            invariant
                n == s.len(),
                n > 0,
                s == specs@,
                i <= n,
                remaining > 0,
                remaining == problem_count - minimum_total(s),
                total == weight_total(s),
                total == 0,
                quotas@.len() == i,
                forall|j: int| 0 <= j < i ==> quotas@[j] == layer_quota(s, problem_count as nat, j),
            decreases n - i,
        {
            let bonus: usize = if i < remaining % n { 1 } else { 0 };
            proof {
                lemma_minimum_le_total(s, i as int);
                assert(specs[i as int].minimum + remaining / n + bonus <= problem_count) by (nonlinear_arith)
                    requires
                        specs[i as int].minimum <= minimum_total(s),
                        remaining == problem_count - minimum_total(s),
                        n >= 1,
                        bonus <= 1,
                        bonus == 1 ==> remaining % n >= 1,
                ;
            }
            quotas.push(specs[i].minimum + remaining / n + bonus);
            i += 1;
        }
        return quotas;
    }
    let mut shares: Vec<u64> = Vec::new();
    let mut rests: Vec<u64> = Vec::new();
    let mut assigned: u64 = 0;
    let mut i: usize = 0;
    while i < n
        invariant
            n == s.len(),
            s == specs@,
            i <= n,
            total > 0,
            total == weight_total(s),
            remaining == problem_count - minimum_total(s),
            shares@.len() == i,
            rests@.len() == i,
            forall|j: int| 0 <= j < i ==> shares@[j] == layer_share(remaining as nat, s[j].weight, total as nat),
            forall|j: int| 0 <= j < i ==> rests@[j] == layer_rest(remaining as nat, s[j].weight, total as nat),
            assigned == share_total(s.take(i as int), remaining as nat, total as nat),
            assigned <= remaining,
        decreases n - i,
    {
        proof {
            assert(s.take(i + 1).drop_last() =~= s.take(i as int));
            lemma_weight_total_prefix(s, i + 1);
            lemma_share_total_bound(s.take(i + 1), remaining as nat, total as nat);
            assert(s.take(i + 1).last() == s[i as int]);
            assert(weight_total(s.take(i + 1)) <= weight_total(s));
            assert((remaining as nat) * (s[i as int].weight as nat) <= (remaining as nat) * (total as nat))
                by (nonlinear_arith)
                requires
                    s[i as int].weight <= total,
            ;
        }
        let weight = specs[i].weight as u64;
        proof {
            lemma_weight_le_total(s, i as int);
            assert((remaining as nat) * (weight as nat) <= (remaining as nat) * (total as nat))
                by (nonlinear_arith)
                requires
                    weight <= total,
            ;
        }
        proof {
            assert((remaining as nat) * (weight as nat) <= 0xffff_ffff_ffff_ffff_ffff_ffff_ffff_ffff) by (
            nonlinear_arith)
                requires
                    remaining <= 0xffff_ffff_ffff_ffff,
                    weight <= 0xffff_ffff,
            ;
        }
        let scaled: u128 = (remaining as u128) * (weight as u128);
        let share: u64 = (scaled / total as u128) as u64;
        let rest: u64 = (scaled % total as u128) as u64;
        shares.push(share);
        rests.push(rest);
        assigned = assigned + share;
        i += 1;
    }
    proof {
        assert(s.take(n as int) =~= s);
    }
    let extra: u64 = remaining as u64 - assigned;
    let mut i: usize = 0;
    while i < n
        invariant
            n == s.len(),
            s == specs@,
            i <= n,
            total > 0,
            total == weight_total(s),
            remaining == problem_count - minimum_total(s),
            shares@.len() == n,
            rests@.len() == n,
            forall|j: int| 0 <= j < n ==> shares@[j] == layer_share(remaining as nat, s[j].weight, total as nat),
            forall|j: int| 0 <= j < n ==> rests@[j] == layer_rest(remaining as nat, s[j].weight, total as nat),
            extra == remaining - share_total(s, remaining as nat, total as nat),
            quotas@.len() == i,
            forall|j: int| 0 <= j < i ==> quotas@[j] == layer_quota(s, problem_count as nat, j),
        decreases n - i,
    {
        let mut rank: u64 = 0;
        let mut k: usize = 0;
        while k < n
            invariant
                n == s.len(),
                i < n,
                k <= n,
                total > 0,
                rests@.len() == n,
                forall|j: int| 0 <= j < n ==> rests@[j] == layer_rest(remaining as nat, s[j].weight, total as nat),
                rank == rank_among(s, remaining as nat, total as nat, i as int, k as int),
                rank <= k,
            decreases n - k,
        {
            if rests[k] > rests[i] || (rests[k] == rests[i] && k < i) {
                rank = rank + 1;
            }
            k += 1;
        }
        let bonus: usize = if rank < extra { 1 } else { 0 };
        proof {
            lemma_share_le_share_total(s, remaining as nat, total as nat, i as int);
            lemma_share_total_bound(s, remaining as nat, total as nat);
            lemma_minimum_le_total(s, i as int);
            assert(shares@[i as int] + bonus <= remaining);
        }
        quotas.push(specs[i].minimum + shares[i] as usize + bonus);
        i += 1;
    }
    quotas
}

proof fn lemma_weight_total_prefix(specs: Seq<SamplingLayerSpec>, k: int)
    requires
        0 <= k <= specs.len(),
    ensures
        weight_total(specs.take(k)) <= weight_total(specs),
    decreases specs.len() - k,
{
    if k < specs.len() {
        assert(specs.take(k + 1).drop_last() =~= specs.take(k));
        lemma_weight_total_prefix(specs, k + 1);
    } else {
        assert(specs.take(k) =~= specs);
    }
}

proof fn lemma_weight_le_total(specs: Seq<SamplingLayerSpec>, i: int)
    requires
        0 <= i < specs.len(),
    ensures
        specs[i].weight <= weight_total(specs),
    decreases specs.len(),
{
    if i < specs.len() - 1 {
        lemma_weight_le_total(specs.drop_last(), i);
    }
}

proof fn lemma_minimum_le_total(specs: Seq<SamplingLayerSpec>, i: int)
    requires
        0 <= i < specs.len(),
    ensures
        specs[i].minimum <= minimum_total(specs),
    decreases specs.len(),
{
    if i < specs.len() - 1 {
        lemma_minimum_le_total(specs.drop_last(), i);
    }
}

proof fn lemma_share_total_bound(specs: Seq<SamplingLayerSpec>, remaining: nat, total: nat)
    requires
        total > 0,
        weight_total(specs) <= total,
    ensures
        share_total(specs, remaining, total) <= remaining * weight_total(specs) / total,
        share_total(specs, remaining, total) <= remaining,
    decreases specs.len(),
{
    if specs.len() > 0 {
        let rest = specs.drop_last();
        lemma_share_total_bound(rest, remaining, total);
        let a = remaining * weight_total(rest);
        let b = remaining * (specs.last().weight as nat);
        assert(a / total + b / total <= (a + b) / total) by (nonlinear_arith)
            requires
                total > 0,
        ;
        assert(remaining * weight_total(specs) == a + b) by (nonlinear_arith)
            requires
                weight_total(specs) == weight_total(rest) + (specs.last().weight as nat),
                a == remaining * weight_total(rest),
                b == remaining * (specs.last().weight as nat),
        ;
    }
    assert(remaining * weight_total(specs) / total <= remaining) by (nonlinear_arith)
        requires
            total > 0,
            weight_total(specs) <= total,
    ;
}

proof fn lemma_share_le_share_total(specs: Seq<SamplingLayerSpec>, remaining: nat, total: nat, i: int)
    requires
        0 <= i < specs.len(),
        total > 0,
    ensures
        layer_share(remaining, specs[i].weight, total) <= share_total(specs, remaining, total),
    decreases specs.len(),
{
    if i < specs.len() - 1 {
        lemma_share_le_share_total(specs.drop_last(), remaining, total, i);
    }
}

/// The quotas of the first `k` layers, summed.
pub open spec fn quota_sum(specs: Seq<SamplingLayerSpec>, problem_count: nat, k: int) -> nat
    decreases k,
{
    if k <= 0 {
        0
    } else {
        quota_sum(specs, problem_count, k - 1) + layer_quota(specs, problem_count, k - 1)
    }
}

/// Layer `a` is served before layer `b` when the fractional parts are
/// ranked: a larger fraction first, ties by position.
pub open spec fn served_before(specs: Seq<SamplingLayerSpec>, remaining: nat, total: nat, a: int, b: int) -> bool {
    let ra = layer_rest(remaining, specs[a].weight, total);
    let rb = layer_rest(remaining, specs[b].weight, total);
    ra > rb || (ra == rb && a < b)
}

pub open spec fn layer_rank(specs: Seq<SamplingLayerSpec>, remaining: nat, total: nat, i: int) -> nat {
    rank_among(specs, remaining, total, i, specs.len() as int)
}

/// The layers below `k` that receive one of the `extra` leftover problems.
pub open spec fn bonus_set(specs: Seq<SamplingLayerSpec>, remaining: nat, total: nat, extra: nat, k: int) -> Set<int> {
    Set::new(|i: int| 0 <= i < k && layer_rank(specs, remaining, total, i) < extra)
}

/// The fractional parts of the shares, summed.
pub open spec fn rest_total(specs: Seq<SamplingLayerSpec>, remaining: nat, total: nat) -> nat
    decreases specs.len(),
{
    if specs.len() == 0 {
        0
    } else {
        rest_total(specs.drop_last(), remaining, total) + layer_rest(remaining, specs.last().weight, total)
    }
}

proof fn lemma_rank_bound(specs: Seq<SamplingLayerSpec>, remaining: nat, total: nat, i: int, k: int)
    requires
        0 <= k,
    ensures
        rank_among(specs, remaining, total, i, k) <= k,
        0 <= i < k ==> rank_among(specs, remaining, total, i, k) < k,
    decreases k,
{
    if k > 0 {
        lemma_rank_bound(specs, remaining, total, i, k - 1);
    }
}

proof fn lemma_rank_order(specs: Seq<SamplingLayerSpec>, remaining: nat, total: nat, i: int, j: int, k: int)
    requires
        0 <= k,
        served_before(specs, remaining, total, i, j),
    ensures
        rank_among(specs, remaining, total, j, k) >= rank_among(specs, remaining, total, i, k) + if 0 <= i < k {
            1int
        } else {
            0int
        },
    decreases k,
{
    if k > 0 {
        lemma_rank_order(specs, remaining, total, i, j, k - 1);
    }
}

proof fn lemma_ranks_distinct(specs: Seq<SamplingLayerSpec>, remaining: nat, total: nat, i: int, j: int)
    requires
        0 <= i < specs.len(),
        0 <= j < specs.len(),
        i != j,
    ensures
        layer_rank(specs, remaining, total, i) != layer_rank(specs, remaining, total, j),
{
    let n = specs.len() as int;
    if served_before(specs, remaining, total, i, j) {
        lemma_rank_order(specs, remaining, total, i, j, n);
    } else {
        assert(served_before(specs, remaining, total, j, i));
        lemma_rank_order(specs, remaining, total, j, i, n);
    }
}

/// Ranks are a permutation of the layers, so exactly `extra` layers rank
/// below `extra`.
proof fn lemma_bonus_set_size(specs: Seq<SamplingLayerSpec>, remaining: nat, total: nat, extra: nat)
    requires
        extra <= specs.len(),
    ensures
        bonus_set(specs, remaining, total, extra, specs.len() as int).finite(),
        bonus_set(specs, remaining, total, extra, specs.len() as int).len() == extra,
{
    let n = specs.len() as int;
    let f = |i: int| layer_rank(specs, remaining, total, i) as int;
    let low = bonus_set(specs, remaining, total, extra, n);
    let high = Set::new(|i: int| 0 <= i < n && layer_rank(specs, remaining, total, i) >= extra);
    let all = set_int_range(0, n);
    lemma_int_range(0, n);
    lemma_int_range(0, extra as int);
    lemma_int_range(extra as int, n);
    assert(low.subset_of(all));
    assert(high.subset_of(all));
    lemma_len_subset(low, all);
    lemma_len_subset(high, all);
    assert forall|a: int, b: int| low.contains(a) && low.contains(b) && #[trigger] f(a) == #[trigger] f(b)
        implies a == b by {
        if a != b {
            lemma_ranks_distinct(specs, remaining, total, a, b);
        }
    }
    assert forall|a: int, b: int| high.contains(a) && high.contains(b) && #[trigger] f(a) == #[trigger] f(b)
        implies a == b by {
        if a != b {
            lemma_ranks_distinct(specs, remaining, total, a, b);
        }
    }
    lemma_map_size(low, low.map(f), f);
    lemma_map_size(high, high.map(f), f);
    assert(low.map(f).subset_of(set_int_range(0, extra as int)));
    assert forall|v: int| #[trigger] high.map(f).contains(v) implies set_int_range(extra as int, n).contains(v) by {
        let w = choose|a: int| high.contains(a) && f(a) == v;
        lemma_rank_bound(specs, remaining, total, w, n);
    }
    lemma_len_subset(low.map(f), set_int_range(0, extra as int));
    lemma_len_subset(high.map(f), set_int_range(extra as int, n));
    assert(low + high =~= all);
    assert(low.disjoint(high));
    vstd::set_lib::lemma_set_disjoint_lens(low, high);
}

proof fn lemma_bonus_count(specs: Seq<SamplingLayerSpec>, problem_count: nat, k: int)
    requires
        0 <= k <= specs.len(),
        specs.len() > 0,
        minimum_total(specs) <= problem_count,
        weight_total(specs) > 0,
        problem_count - minimum_total(specs) > 0,
    ensures
        ({
            let remaining: nat = (problem_count - minimum_total(specs)) as nat;
            let total = weight_total(specs);
            let extra: nat = (remaining - share_total(specs, remaining, total)) as nat;
            &&& bonus_set(specs, remaining, total, extra, k).finite()
            &&& quota_sum(specs, problem_count, k) == minimum_total(specs.take(k)) + share_total(
                specs.take(k),
                remaining,
                total,
            ) + bonus_set(specs, remaining, total, extra, k).len()
        }),
    decreases k,
{
    let remaining: nat = (problem_count - minimum_total(specs)) as nat;
    let total = weight_total(specs);
    let extra: nat = (remaining - share_total(specs, remaining, total)) as nat;
    lemma_share_total_bound(specs, remaining, total);
    if k == 0 {
        assert(bonus_set(specs, remaining, total, extra, 0) =~= Set::<int>::empty());
        assert(specs.take(0) =~= Seq::<SamplingLayerSpec>::empty());
    } else {
        lemma_bonus_count(specs, problem_count, k - 1);
        assert(specs.take(k).drop_last() =~= specs.take(k - 1));
        assert(specs.take(k).last() == specs[k - 1]);
        let prev = bonus_set(specs, remaining, total, extra, k - 1);
        let next = bonus_set(specs, remaining, total, extra, k);
        let bonus: nat = if layer_rank(specs, remaining, total, k - 1) < extra {
            1
        } else {
            0
        };
        assert(layer_quota(specs, problem_count, k - 1) == specs[k - 1].minimum + layer_share(
            remaining,
            specs[k - 1].weight,
            total,
        ) + bonus);
        assert(!prev.contains(k - 1));
        if bonus == 1 {
            assert(next =~= prev.insert(k - 1));
        } else {
            assert(next =~= prev);
        }
    }
}

proof fn lemma_rest_total(specs: Seq<SamplingLayerSpec>, remaining: nat, total: nat)
    requires
        total > 0,
    ensures
        remaining * weight_total(specs) == share_total(specs, remaining, total) * total + rest_total(
            specs,
            remaining,
            total,
        ),
        rest_total(specs, remaining, total) <= specs.len() * (total - 1),
    decreases specs.len(),
{
    if specs.len() == 0 {
        assert(remaining * 0 == 0 * total + 0) by (nonlinear_arith);
    } else {
        let rest = specs.drop_last();
        lemma_rest_total(rest, remaining, total);
        let w = specs.last().weight as nat;
        let q = layer_share(remaining, specs.last().weight, total);
        let r = layer_rest(remaining, specs.last().weight, total);
        assert(remaining * w == q * total + r) by (nonlinear_arith)
            requires
                total > 0,
                q == (remaining * w) / total,
                r == (remaining * w) % total,
        ;
        assert(r <= total - 1) by (nonlinear_arith)
            requires
                total > 0,
                r == (remaining * w) % total,
        ;
        assert(remaining * weight_total(specs) == remaining * weight_total(rest) + remaining * w) by (
        nonlinear_arith)
            requires
                weight_total(specs) == weight_total(rest) + w,
        ;
        assert(share_total(specs, remaining, total) * total == share_total(rest, remaining, total) * total + q
            * total) by (nonlinear_arith)
            requires
                share_total(specs, remaining, total) == share_total(rest, remaining, total) + q,
        ;
        assert(specs.len() * (total - 1) == rest.len() * (total - 1) + (total - 1)) by (nonlinear_arith)
            requires
                specs.len() == rest.len() + 1,
        ;
    }
}

/// Every worksheet is filled: for layers whose minimums fit, the layer
/// quotas add up to exactly the problem count.
pub proof fn lemma_quotas_fill_worksheet(specs: Seq<SamplingLayerSpec>, problem_count: nat)
    requires
        specs.len() > 0,
        minimum_total(specs) <= problem_count,
    ensures
        quota_sum(specs, problem_count, specs.len() as int) == problem_count,
{
    let n = specs.len() as int;
    let remaining: nat = (problem_count - minimum_total(specs)) as nat;
    let total = weight_total(specs);
    assert(specs.take(n) =~= specs);
    if remaining == 0 {
        lemma_plain_quota_sum(specs, problem_count, n);
    } else if total == 0 {
        lemma_round_robin_sum(specs, problem_count, n);
        let q = remaining / (n as nat);
        let r = remaining % (n as nat);
        assert(n * q + r == remaining) by (nonlinear_arith)
            requires
                n > 0,
                q == remaining / (n as nat),
                r == remaining % (n as nat),
        ;
    } else {
        lemma_share_total_bound(specs, remaining, total);
        let extra: nat = (remaining - share_total(specs, remaining, total)) as nat;
        lemma_rest_total(specs, remaining, total);
        let st = share_total(specs, remaining, total);
        let rt = rest_total(specs, remaining, total);
        assert(extra <= specs.len()) by (nonlinear_arith)
            requires
                total > 0,
                remaining * total == st * total + rt,
                rt <= specs.len() * (total - 1),
                extra == remaining - st,
                st <= remaining,
        ;
        lemma_bonus_count(specs, problem_count, n);
        lemma_bonus_set_size(specs, remaining, total, extra);
    }
}

proof fn lemma_plain_quota_sum(specs: Seq<SamplingLayerSpec>, problem_count: nat, k: int)
    requires
        0 <= k <= specs.len(),
        minimum_total(specs) == problem_count,
    ensures
        quota_sum(specs, problem_count, k) == minimum_total(specs.take(k)),
    decreases k,
{
    if k == 0 {
        assert(specs.take(0) =~= Seq::<SamplingLayerSpec>::empty());
    } else {
        lemma_plain_quota_sum(specs, problem_count, k - 1);
        assert(specs.take(k).drop_last() =~= specs.take(k - 1));
    }
}

proof fn lemma_round_robin_sum(specs: Seq<SamplingLayerSpec>, problem_count: nat, k: int)
    requires
        0 <= k <= specs.len(),
        specs.len() > 0,
        minimum_total(specs) < problem_count,
        weight_total(specs) == 0,
    ensures
        ({
            let n = specs.len();
            let remaining: nat = (problem_count - minimum_total(specs)) as nat;
            quota_sum(specs, problem_count, k) == minimum_total(specs.take(k)) + k * (remaining / n) + if k
                < remaining % n {
                k
            } else {
                (remaining % n) as int
            }
        }),
    decreases k,
{
    let n = specs.len();
    let remaining: nat = (problem_count - minimum_total(specs)) as nat;
    if k == 0 {
        assert(specs.take(0) =~= Seq::<SamplingLayerSpec>::empty());
        assert(minimum_total(specs.take(0)) == 0);
        assert(k * (remaining / n) == 0) by (nonlinear_arith)
            requires
                k == 0,
        ;
    } else {
        lemma_round_robin_sum(specs, problem_count, k - 1);
        assert(specs.take(k).drop_last() =~= specs.take(k - 1));
        assert(specs.take(k).last() == specs[k - 1]);
        assert(k * (remaining / n) == (k - 1) * (remaining / n) + remaining / n) by (nonlinear_arith);
        let bonus: int = if k - 1 < remaining % n {
            1
        } else {
            0
        };
        assert(layer_quota(specs, problem_count, k - 1) == specs[k - 1].minimum + remaining / n + bonus);
        assert(minimum_total(specs.take(k)) == minimum_total(specs.take(k - 1)) + specs[k - 1].minimum);
        let r = remaining % n;
        let prev_extra: int = if k - 1 < r {
            k - 1
        } else {
            r as int
        };
        let next_extra: int = if k < r {
            k
        } else {
            r as int
        };
        assert(prev_extra + bonus == next_extra);
    }
}

/// Whether a selection keeps one candidate per semantic key.
#[derive(Clone, Copy, Debug, PartialEq, Eq, Structural)]
pub enum SelectionDedup {
    AllowDuplicates,
    Deduplicate,
}

/// A candidate of the pool: its position in the pool, its semantic key
/// (equal keys are the same problem), its rank in the pool's order by
/// effort (then key, then problem number), and the sampling layer it falls
/// in (zero where the strategy has no layers).
#[derive(Clone, Copy, Debug, PartialEq, Eq, Structural)]
pub struct PoolEntry {
    pub index: usize,
    pub key: u64,
    pub rank: usize,
    pub layer: usize,
}

/// Difficulty four is random; one to three are ranked.
pub open spec fn is_random_difficulty(difficulty: u8) -> bool {
    difficulty == 4
}

/// The trim of the ranked selection on each side.
pub open spec fn effort_trim() -> nat {
    2
}

/// Whether an entry of `s` has key `k`.
pub open spec fn key_taken(s: Seq<PoolEntry>, k: u64) -> bool {
    exists|j: int| 0 <= j < s.len() && #[trigger] s[j].key == k
}

/// The pool with only the first candidate of each key kept.
pub open spec fn first_of_each_key(pool: Seq<PoolEntry>) -> Seq<PoolEntry>
    decreases pool.len(),
{
    if pool.len() == 0 {
        pool
    } else {
        let d = first_of_each_key(pool.drop_last());
        if key_taken(d, pool.last().key) {
            d
        } else {
            d.push(pool.last())
        }
    }
}

/// The pool without the candidates of key `k`.
pub open spec fn without_key(pool: Seq<PoolEntry>, k: u64) -> Seq<PoolEntry>
    decreases pool.len(),
{
    if pool.len() == 0 {
        pool
    } else {
        let d = without_key(pool.drop_last(), k);
        if pool.last().key == k {
            d
        } else {
            d.push(pool.last())
        }
    }
}

/// `x` put into `s` before the first entry of a greater rank.
pub open spec fn rank_insert(s: Seq<PoolEntry>, x: PoolEntry) -> Seq<PoolEntry>
    decreases s.len(),
{
    if s.len() == 0 {
        seq![x]
    } else if x.rank <= s[0].rank {
        seq![x] + s
    } else {
        seq![s[0]] + rank_insert(s.drop_first(), x)
    }
}

/// The entries of `s` in order of rank.
pub open spec fn rank_sorted(s: Seq<PoolEntry>) -> Seq<PoolEntry>
    decreases s.len(),
{
    if s.len() == 0 {
        s
    } else {
        rank_insert(rank_sorted(s.drop_last()), s.last())
    }
}

/// `count` candidates taken at random, each drawn uniformly from what is
/// left (the last candidate moved into the gap); the picks and the
/// generator state after.
pub open spec fn random_picks(state: u64, pool: Seq<PoolEntry>, count: nat) -> (Seq<PoolEntry>, u64)
    decreases count,
{
    if count == 0 || pool.len() == 0 || pool.len() > u64::MAX {
        (Seq::empty(), state)
    } else {
        let (j, s1) = bounded_draw(state, pool.len() as u64, MAX_REJECTED_DRAWS as nat);
        let (rest, s2) = random_picks(s1, pool.update(j as int, pool.last()).drop_last(), (count - 1) as nat);
        (seq![pool[j as int]] + rest, s2)
    }
}

/// `k` draws from `1..=n`; the draws and the generator state after.
pub open spec fn one_based_draws(state: u64, n: u64, k: nat) -> (Seq<u64>, u64)
    decreases k,
{
    if k == 0 {
        (Seq::empty(), state)
    } else {
        let (d, s1) = bounded_draw(state, n, MAX_REJECTED_DRAWS as nat);
        let (rest, s2) = one_based_draws(s1, n, (k - 1) as nat);
        (seq![(d + 1) as u64] + rest, s2)
    }
}

/// Which of five sorted draws a ranked difficulty takes: the least for one,
/// the median for two, the greatest for three.
pub open spec fn order_statistic(difficulty: u8) -> int {
    if difficulty == 1 {
        0
    } else if difficulty == 2 {
        2
    } else {
        4
    }
}

/// Ranked picks from a pool in effort order: five positions drawn, the one
/// at the difficulty's order statistic taken, and every candidate of its
/// key dropped from the pool; `count` times. The picks and the state after.
pub open spec fn ranked_picks(state: u64, pool: Seq<PoolEntry>, difficulty: u8, count: nat) -> (Seq<PoolEntry>, u64)
    decreases count,
{
    if count == 0 || pool.len() == 0 || pool.len() > u64::MAX {
        (Seq::empty(), state)
    } else {
        let (ds, s1) = one_based_draws(state, pool.len() as u64, 5);
        let position = sorted_seq(ds)[order_statistic(difficulty)] - 1;
        let chosen = pool[position];
        let rest = without_key(pool.remove(position), chosen.key);
        let (more, s2) = ranked_picks(s1, rest, difficulty, (count - 1) as nat);
        (seq![chosen] + more, s2)
    }
}

/// The problems of a worksheet chosen from a candidate pool, as positions
/// in the pool, and the generator state after. With deduplication, or for
/// a random difficulty, only the first candidate of each key stays. The
/// pool must hold `count` distinct keys (four more for a ranked
/// difficulty, which trims two from each end). A random difficulty takes
/// `count` uniform picks; a ranked one takes `count + 4` ranked picks from
/// the pool in effort order and keeps the middle `count` in effort order.
pub open spec fn selection(
    pool: Seq<PoolEntry>,
    dedup: SelectionDedup,
    count: nat,
    difficulty: u8,
    state: u64,
) -> (Result<Seq<usize>, SamplingError>, u64) {
    let firsts = first_of_each_key(pool);
    let working = if dedup == SelectionDedup::Deduplicate || is_random_difficulty(difficulty) {
        firsts
    } else {
        pool
    };
    let required = if is_random_difficulty(difficulty) {
        count
    } else {
        count + 2 * effort_trim()
    };
    if firsts.len() < required {
        (
            Err(
                SamplingError::InsufficientDistinctCandidates {
                    required: required as usize,
                    available: firsts.len() as usize,
                },
            ),
            state,
        )
    } else if is_random_difficulty(difficulty) {
        let (picks, s) = random_picks(state, working, count);
        (Ok(picks.map_values(|e: PoolEntry| e.index)), s)
    } else {
        let (picks, s) = ranked_picks(state, rank_sorted(working), difficulty, count + 2 * effort_trim());
        let ordered = rank_sorted(picks);
        let lo = if ordered.len() < effort_trim() {
            ordered.len()
        } else {
            effort_trim()
        };
        let hi = if ordered.len() < lo + count {
            ordered.len()
        } else {
            lo + count
        };
        (Ok(ordered.subrange(lo as int, hi as int).map_values(|e: PoolEntry| e.index)), s)
    }
}

fn key_taken_exec(s: &Vec<PoolEntry>, k: u64) -> (r: bool)
    ensures
        r == key_taken(s@, k),
{
    let mut i: usize = 0;
    while i < s.len()
        invariant
            i <= s@.len(),
            forall|j: int| 0 <= j < i ==> #[trigger] s@[j].key != k,
        decreases s@.len() - i,
    {
        if s[i].key == k {
            return true;
        }
        i += 1;
    }
    false
}

fn first_of_each_key_exec(pool: &Vec<PoolEntry>) -> (r: Vec<PoolEntry>)
    ensures
        r@ == first_of_each_key(pool@),
{
    let mut out: Vec<PoolEntry> = Vec::new();
    let mut k: usize = 0;
    proof {
        assert(pool@.take(0) =~= Seq::<PoolEntry>::empty());
    }
    while k < pool.len()
        invariant
            k <= pool@.len(),
            out@ == first_of_each_key(pool@.take(k as int)),
        decreases pool@.len() - k,
    {
        proof {
            assert(pool@.take(k + 1).drop_last() =~= pool@.take(k as int));
        }
        let entry = pool[k];
        if !key_taken_exec(&out, entry.key) {
            out.push(entry);
        }
        k += 1;
    }
    proof {
        assert(pool@.take(pool@.len() as int) =~= pool@);
    }
    out
}

fn without_key_exec(pool: &Vec<PoolEntry>, key: u64) -> (r: Vec<PoolEntry>)
    ensures
        r@ == without_key(pool@, key),
{
    let mut out: Vec<PoolEntry> = Vec::new();
    let mut k: usize = 0;
    proof {
        assert(pool@.take(0) =~= Seq::<PoolEntry>::empty());
    }
    while k < pool.len()
        invariant
            k <= pool@.len(),
            out@ == without_key(pool@.take(k as int), key),
        decreases pool@.len() - k,
    {
        proof {
            assert(pool@.take(k + 1).drop_last() =~= pool@.take(k as int));
        }
        let entry = pool[k];
        if entry.key != key {
            out.push(entry);
        }
        k += 1;
    }
    proof {
        assert(pool@.take(pool@.len() as int) =~= pool@);
    }
    out
}

fn rank_insert_exec(s: &Vec<PoolEntry>, x: PoolEntry) -> (r: Vec<PoolEntry>)
    ensures
        r@ == rank_insert(s@, x),
{
    let mut out: Vec<PoolEntry> = Vec::new();
    let mut i: usize = 0;
    proof {
        assert(s@.skip(0) =~= s@);
    }
    while i < s.len() && s[i].rank < x.rank
        invariant
            i <= s@.len(),
            out@ + rank_insert(s@.skip(i as int), x) == rank_insert(s@, x),
        decreases s@.len() - i,
    {
        proof {
            assert(s@.skip(i as int).drop_first() =~= s@.skip(i + 1));
        }
        let ghost before = out@;
        out.push(s[i]);
        proof {
            assert(before + (seq![s@[i as int]] + rank_insert(s@.skip(i + 1), x)) =~= out@ + rank_insert(
                s@.skip(i + 1),
                x,
            ));
        }
        i += 1;
    }
    let ghost prefix = out@;
    out.push(x);
    let mut j = i;
    while j < s.len()
        invariant
            i <= j <= s@.len(),
            out@ == prefix + seq![x] + s@.subrange(i as int, j as int),
        decreases s@.len() - j,
    {
        out.push(s[j]);
        proof {
            assert(out@ =~= prefix + seq![x] + s@.subrange(i as int, j + 1));
        }
        j += 1;
    }
    proof {
        assert(s@.subrange(i as int, s@.len() as int) =~= s@.skip(i as int));
        if i < s@.len() {
            assert(rank_insert(s@.skip(i as int), x) == seq![x] + s@.skip(i as int));
        } else {
            assert(s@.skip(i as int) =~= Seq::<PoolEntry>::empty());
        }
        assert(out@ =~= prefix + rank_insert(s@.skip(i as int), x));
    }
    out
}

fn rank_sorted_exec(v: &Vec<PoolEntry>) -> (r: Vec<PoolEntry>)
    ensures
        r@ == rank_sorted(v@),
{
    let mut out: Vec<PoolEntry> = Vec::new();
    let mut k: usize = 0;
    proof {
        assert(v@.take(0) =~= Seq::<PoolEntry>::empty());
    }
    while k < v.len()
        invariant
            k <= v@.len(),
            out@ == rank_sorted(v@.take(k as int)),
        decreases v@.len() - k,
    {
        proof {
            assert(v@.take(k + 1).drop_last() =~= v@.take(k as int));
        }
        out = rank_insert_exec(&out, v[k]);
        k += 1;
    }
    proof {
        assert(v@.take(v@.len() as int) =~= v@);
    }
    out
}

fn copy_entries(v: &Vec<PoolEntry>) -> (r: Vec<PoolEntry>)
    ensures
        r@ == v@,
{
    let mut out: Vec<PoolEntry> = Vec::new();
    let mut k: usize = 0;
    while k < v.len()
        invariant
            k <= v@.len(),
            out@ == v@.take(k as int),
        decreases v@.len() - k,
    {
        out.push(v[k]);
        proof {
            assert(out@ =~= v@.take(k + 1));
        }
        k += 1;
    }
    proof {
        assert(v@.take(v@.len() as int) =~= v@);
    }
    out
}

fn random_picks_exec(pool: Vec<PoolEntry>, count: usize, rng: &mut DeterministicRng) -> (r: Vec<PoolEntry>)
    ensures
        (r@, final(rng)@) == random_picks(old(rng)@, pool@, count as nat),
{
    let ghost total = random_picks(rng@, pool@, count as nat);
    let mut pool = pool;
    let mut picked: Vec<PoolEntry> = Vec::new();
    while picked.len() < count && pool.len() > 0
        invariant
            picked@.len() <= count,
            picked@ + random_picks(rng@, pool@, (count - picked@.len()) as nat).0 == total.0,
            random_picks(rng@, pool@, (count - picked@.len()) as nat).1 == total.1,
        decreases count - picked@.len(),
    {
        let ghost rem = (count - picked@.len()) as nat;
        let ghost before_pool = pool@;
        let ghost before_picked = picked@;
        let ghost before_state = rng@;
        assert(pool@.len() <= u64::MAX);
        let j = rng.next_bounded(pool.len() as u64);
        let entry = pool.swap_remove(j as usize);
        picked.push(entry);
        proof {
            let rest = random_picks(rng@, pool@, (rem - 1) as nat);
            assert(random_picks(before_state, before_pool, rem) == (seq![entry] + rest.0, rest.1));
            assert(before_picked + (seq![entry] + rest.0) =~= picked@ + rest.0);
        }
    }
    proof {
        assert(picked@ + Seq::<PoolEntry>::empty() =~= picked@);
    }
    picked
}

fn one_based_draws_exec(rng: &mut DeterministicRng, n: u64, k: usize) -> (r: Vec<u64>)
    requires
        n > 0,
    ensures
        (r@, final(rng)@) == one_based_draws(old(rng)@, n, k as nat),
{
    let ghost total = one_based_draws(rng@, n, k as nat);
    let mut out: Vec<u64> = Vec::new();
    while out.len() < k
        invariant
            n > 0,
            out@.len() <= k,
            out@ + one_based_draws(rng@, n, (k - out@.len()) as nat).0 == total.0,
            one_based_draws(rng@, n, (k - out@.len()) as nat).1 == total.1,
        decreases k - out@.len(),
    {
        let ghost rem = (k - out@.len()) as nat;
        let ghost before_out = out@;
        let ghost before_state = rng@;
        let d = rng.next_bounded(n);
        out.push(d + 1);
        proof {
            let rest = one_based_draws(rng@, n, (rem - 1) as nat);
            assert(one_based_draws(before_state, n, rem) == (seq![(d + 1) as u64] + rest.0, rest.1));
            assert(before_out + (seq![(d + 1) as u64] + rest.0) =~= out@ + rest.0);
        }
    }
    proof {
        assert(out@ + Seq::<u64>::empty() =~= out@);
    }
    out
}

/// Every item of `s` lies in `[lo, hi]`.
pub open spec fn all_within(s: Seq<u64>, lo: int, hi: int) -> bool {
    forall|i: int| 0 <= i < s.len() ==> lo <= #[trigger] s[i] <= hi
}

proof fn lemma_draws_within(state: u64, n: u64, k: nat)
    requires
        n > 0,
    ensures
        one_based_draws(state, n, k).0.len() == k,
        all_within(one_based_draws(state, n, k).0, 1, n as int),
    decreases k,
{
    if k > 0 {
        let (d, s1) = bounded_draw(state, n, MAX_REJECTED_DRAWS as nat);
        lemma_bounded_draw_below(state, n, MAX_REJECTED_DRAWS as nat);
        lemma_draws_within(s1, n, (k - 1) as nat);
        let rest = one_based_draws(s1, n, (k - 1) as nat).0;
        let all = seq![(d + 1) as u64] + rest;
        assert forall|i: int| 0 <= i < all.len() implies 1 <= #[trigger] all[i] <= n by {
            if i > 0 {
                assert(all[i] == rest[i - 1]);
            }
        }
    }
}

proof fn lemma_insert_sorted_within(s: Seq<u64>, x: u64, lo: int, hi: int)
    requires
        all_within(s, lo, hi),
        lo <= x <= hi,
    ensures
        insert_sorted(s, x).len() == s.len() + 1,
        all_within(insert_sorted(s, x), lo, hi),
    decreases s.len(),
{
    if s.len() == 0 {
    } else if x <= s[0] {
        let all = seq![x] + s;
        assert forall|i: int| 0 <= i < all.len() implies lo <= #[trigger] all[i] <= hi by {
            if i > 0 {
                assert(all[i] == s[i - 1]);
            }
        }
    } else {
        let tail = s.drop_first();
        assert(all_within(tail, lo, hi)) by {
            assert forall|i: int| 0 <= i < tail.len() implies lo <= #[trigger] tail[i] <= hi by {
                assert(tail[i] == s[i + 1]);
            }
        }
        lemma_insert_sorted_within(tail, x, lo, hi);
        let rest = insert_sorted(tail, x);
        let all = seq![s[0]] + rest;
        assert forall|i: int| 0 <= i < all.len() implies lo <= #[trigger] all[i] <= hi by {
            if i > 0 {
                assert(all[i] == rest[i - 1]);
            }
        }
    }
}

proof fn lemma_sorted_seq_within(s: Seq<u64>, lo: int, hi: int)
    requires
        all_within(s, lo, hi),
    ensures
        sorted_seq(s).len() == s.len(),
        all_within(sorted_seq(s), lo, hi),
    decreases s.len(),
{
    if s.len() > 0 {
        let init = s.drop_last();
        assert(all_within(init, lo, hi)) by {
            assert forall|i: int| 0 <= i < init.len() implies lo <= #[trigger] init[i] <= hi by {
                assert(init[i] == s[i]);
            }
        }
        lemma_sorted_seq_within(init, lo, hi);
        lemma_insert_sorted_within(sorted_seq(init), s.last(), lo, hi);
    }
}

fn order_statistic_exec(difficulty: u8) -> (r: usize)
    ensures
        r == order_statistic(difficulty),
{
    if difficulty == 1 {
        0
    } else if difficulty == 2 {
        2
    } else {
        4
    }
}

fn ranked_picks_exec(pool: Vec<PoolEntry>, difficulty: u8, count: usize, rng: &mut DeterministicRng) -> (r: Vec<PoolEntry>)
    ensures
        (r@, final(rng)@) == ranked_picks(old(rng)@, pool@, difficulty, count as nat),
{
    let ghost total = ranked_picks(rng@, pool@, difficulty, count as nat);
    let mut pool = pool;
    let mut picked: Vec<PoolEntry> = Vec::new();
    while picked.len() < count && pool.len() > 0
        invariant
            picked@.len() <= count,
            picked@ + ranked_picks(rng@, pool@, difficulty, (count - picked@.len()) as nat).0 == total.0,
            ranked_picks(rng@, pool@, difficulty, (count - picked@.len()) as nat).1 == total.1,
        decreases count - picked@.len(),
    {
        let ghost rem = (count - picked@.len()) as nat;
        let ghost before_pool = pool@;
        let ghost before_picked = picked@;
        let ghost before_state = rng@;
        assert(pool@.len() <= u64::MAX);
        let n = pool.len() as u64;
        let draws = one_based_draws_exec(rng, n, 5);
        let sorted = sort_exec(&draws);
        proof {
            lemma_draws_within(before_state, n, 5);
            lemma_sorted_seq_within(draws@, 1, n as int);
        }
        let idx = order_statistic_exec(difficulty);
        let position = (sorted[idx] - 1) as usize;
        let chosen = pool.remove(position);
        pool = without_key_exec(&pool, chosen.key);
        picked.push(chosen);
        proof {
            let rest = ranked_picks(rng@, pool@, difficulty, (rem - 1) as nat);
            assert(ranked_picks(before_state, before_pool, difficulty, rem) == (seq![chosen] + rest.0, rest.1));
            assert(before_picked + (seq![chosen] + rest.0) =~= picked@ + rest.0);
        }
    }
    proof {
        assert(picked@ + Seq::<PoolEntry>::empty() =~= picked@);
    }
    picked
}

fn positions_of(v: &Vec<PoolEntry>, lo: usize, hi: usize) -> (r: Vec<usize>)
    requires
        lo <= hi <= v@.len(),
    ensures
        r@ == v@.subrange(lo as int, hi as int).map_values(|e: PoolEntry| e.index),
{
    let mut out: Vec<usize> = Vec::new();
    let mut k: usize = lo;
    while k < hi
        invariant
            lo <= k <= hi <= v@.len(),
            out@ == v@.subrange(lo as int, k as int).map_values(|e: PoolEntry| e.index),
        decreases hi - k,
    {
        out.push(v[k].index);
        proof {
            assert(out@ =~= v@.subrange(lo as int, k + 1).map_values(|e: PoolEntry| e.index));
        }
        k += 1;
    }
    out
}

/// The positions of a selection, or its error, as the specification states it.
pub open spec fn selection_view(r: Result<Vec<usize>, SamplingError>) -> Result<Seq<usize>, SamplingError> {
    match r {
        Ok(v) => Ok(v@),
        Err(e) => Err(e),
    }
}

/// Chooses `count` problems of a worksheet from a candidate pool (see
/// `selection`): with difficulty four uniformly at random among distinct
/// keys, with one to three by ranked draws over the pool in effort order,
/// trimmed by two on each side. The result lists positions in the pool;
/// too few distinct keys is an error, and then no draw is made.
pub fn select_candidates(
    pool: &Vec<PoolEntry>,
    dedup: SelectionDedup,
    count: usize,
    difficulty: u8,
    rng: &mut DeterministicRng,
) -> (r: Result<Vec<usize>, SamplingError>)
    requires
        1 <= difficulty <= 4,
        count <= usize::MAX - 4,
    ensures
        (selection_view(r), final(rng)@) == selection(pool@, dedup, count as nat, difficulty, old(rng)@),
{
    let firsts = first_of_each_key_exec(pool);
    let random = difficulty == 4;
    let required = if random {
        count
    } else {
        count + 4
    };
    if firsts.len() < required {
        return Err(SamplingError::InsufficientDistinctCandidates { required, available: firsts.len() });
    }
    let working = if dedup == SelectionDedup::Deduplicate || random {
        firsts
    } else {
        copy_entries(pool)
    };
    if random {
        let picks = random_picks_exec(working, count, rng);
        proof {
            assert(picks@.subrange(0, picks@.len() as int) =~= picks@);
        }
        return Ok(positions_of(&picks, 0, picks.len()));
    }
    let ordered_pool = rank_sorted_exec(&working);
    let picks = ranked_picks_exec(ordered_pool, difficulty, count + 4, rng);
    let ordered = rank_sorted_exec(&picks);
    let lo = if ordered.len() < 2 {
        ordered.len()
    } else {
        2
    };
    let hi = if ordered.len() - lo < count {
        ordered.len()
    } else {
        lo + count
    };
    Ok(positions_of(&ordered, lo, hi))
}

/// The Fisher-Yates shuffle of `s` from position `upper` down to one: each
/// position swapped with a uniform draw at or below it. The order and the
/// generator state after.
pub open spec fn shuffle_from(state: u64, s: Seq<PoolEntry>, upper: nat) -> (Seq<PoolEntry>, u64)
    decreases upper,
{
    if upper == 0 || upper >= s.len() || upper >= u64::MAX {
        (s, state)
    } else {
        let (j, s1) = bounded_draw(state, (upper + 1) as u64, MAX_REJECTED_DRAWS as nat);
        shuffle_from(s1, s.update(upper as int, s[j as int]).update(j as int, s[upper as int]), (upper - 1) as nat)
    }
}

/// The order in which a worksheet presents its chosen problems, and the
/// generator state after: easy and normal sheets (difficulty one or two)
/// go up in effort, hard and random ones are shuffled.
pub open spec fn presentation(state: u64, chosen: Seq<PoolEntry>, difficulty: u8) -> (Seq<PoolEntry>, u64) {
    if difficulty <= 2 {
        (rank_sorted(chosen), state)
    } else if chosen.len() <= 1 {
        (chosen, state)
    } else {
        shuffle_from(state, chosen, (chosen.len() - 1) as nat)
    }
}

/// Puts a worksheet's chosen problems in presentation order (see
/// `presentation`).
pub fn arrange_worksheet(chosen: &Vec<PoolEntry>, difficulty: u8, rng: &mut DeterministicRng) -> (r: Vec<PoolEntry>)
    ensures
        (r@, final(rng)@) == presentation(old(rng)@, chosen@, difficulty),
{
    if difficulty <= 2 {
        return rank_sorted_exec(chosen);
    }
    let mut out = copy_entries(chosen);
    if out.len() <= 1 {
        return out;
    }
    let ghost total = presentation(rng@, chosen@, difficulty);
    let mut upper: usize = out.len() - 1;
    while upper > 0
        invariant
            out@.len() == chosen@.len(),
            upper < out@.len(),
            shuffle_from(rng@, out@, upper as nat) == total,
        decreases upper,
    {
        let ghost before = out@;
        let ghost before_state = rng@;
        assert(out.len() <= usize::MAX);
        assert(usize::MAX <= u64::MAX);
        let bound: u64 = (upper as u64) + 1;
        let j = rng.next_bounded(bound) as usize;
        let a = out[upper];
        let b = out[j];
        out.set(upper, b);
        out.set(j, a);
        proof {
            assert(out@ == before.update(upper as int, before[j as int]).update(j as int, before[upper as int]));
        }
        upper = upper - 1;
    }
    out
}

/// The candidates of the pool that fall in layer `layer`, in pool order.
pub open spec fn in_layer(pool: Seq<PoolEntry>, layer: int) -> Seq<PoolEntry>
    decreases pool.len(),
{
    if pool.len() == 0 {
        pool
    } else {
        let d = in_layer(pool.drop_last(), layer);
        if pool.last().layer == layer {
            d.push(pool.last())
        } else {
            d
        }
    }
}

/// Positions chosen so far put in front of what the rest of a selection
/// gives.
pub open spec fn after_prefix(
    prefix: Seq<usize>,
    rest: (Result<Seq<usize>, SamplingError>, u64),
) -> (Result<Seq<usize>, SamplingError>, u64) {
    match rest.0 {
        Ok(more) => (Ok(prefix + more), rest.1),
        Err(e) => (Err(e), rest.1),
    }
}

/// A layered selection from layer `k` on: each layer with a nonzero quota
/// is selected from its own candidates (see `selection`), in layer order;
/// the first error stops it.
pub open spec fn layered_selection_from(
    pool: Seq<PoolEntry>,
    quotas: Seq<usize>,
    dedup: SelectionDedup,
    difficulty: u8,
    state: u64,
    k: nat,
) -> (Result<Seq<usize>, SamplingError>, u64)
    decreases quotas.len() - k,
{
    if k >= quotas.len() {
        (Ok(Seq::empty()), state)
    } else if quotas[k as int] == 0 {
        layered_selection_from(pool, quotas, dedup, difficulty, state, k + 1)
    } else {
        let (r, s1) = selection(in_layer(pool, k as int), dedup, quotas[k as int] as nat, difficulty, state);
        match r {
            Ok(picks) => after_prefix(picks, layered_selection_from(pool, quotas, dedup, difficulty, s1, k + 1)),
            Err(e) => (Err(e), s1),
        }
    }
}

pub(crate) fn in_layer_exec(pool: &Vec<PoolEntry>, layer: usize) -> (r: Vec<PoolEntry>)
    ensures
        r@ == in_layer(pool@, layer as int),
{
    let mut out: Vec<PoolEntry> = Vec::new();
    let mut k: usize = 0;
    proof {
        assert(pool@.take(0) =~= Seq::<PoolEntry>::empty());
    }
    while k < pool.len()
        invariant
            k <= pool@.len(),
            out@ == in_layer(pool@.take(k as int), layer as int),
        decreases pool@.len() - k,
    {
        proof {
            assert(pool@.take(k + 1).drop_last() =~= pool@.take(k as int));
        }
        let entry = pool[k];
        if entry.layer == layer {
            out.push(entry);
        }
        k += 1;
    }
    proof {
        assert(pool@.take(pool@.len() as int) =~= pool@);
    }
    out
}

/// The quotas of all layers, in layer order.
pub open spec fn quota_seq(specs: Seq<SamplingLayerSpec>, problem_count: nat) -> Seq<usize> {
    Seq::new(specs.len(), |i: int| layer_quota(specs, problem_count, i) as usize)
}

pub(crate) proof fn lemma_quota_le_sum(specs: Seq<SamplingLayerSpec>, problem_count: nat, i: int, k: int)
    requires
        0 <= i < k,
    ensures
        layer_quota(specs, problem_count, i) <= quota_sum(specs, problem_count, k),
    decreases k,
{
    if i < k - 1 {
        lemma_quota_le_sum(specs, problem_count, i, k - 1);
    }
}

/// Chooses a layered worksheet's problems: the quotas of `layered_quotas`,
/// each layer selected from its own candidates in layer order (see
/// `layered_selection_from`). Every candidate's layer is one of the layers.
pub fn select_layered_candidates(
    pool: &Vec<PoolEntry>,
    layers: &SamplingLayers,
    problem_count: usize,
    dedup: SelectionDedup,
    difficulty: u8,
    rng: &mut DeterministicRng,
) -> (r: Result<Vec<usize>, SamplingError>)
    requires
        1 <= difficulty <= 4,
        problem_count <= usize::MAX - 4,
        layers@.len() > 0,
        minimum_total(layers@) <= problem_count,
        weight_total(layers@) <= u64::MAX,
        forall|i: int| 0 <= i < pool@.len() ==> #[trigger] pool@[i].layer < layers@.len(),
    ensures
        (selection_view(r), final(rng)@) == layered_selection_from(
            pool@,
            quota_seq(layers@, problem_count as nat),
            dedup,
            difficulty,
            old(rng)@,
            0,
        ),
{
    let quotas = layered_quotas(layers, problem_count);
    let ghost q = quota_seq(layers@, problem_count as nat);
    proof {
        assert(quotas@ =~= q);
        lemma_quotas_fill_worksheet(layers@, problem_count as nat);
    }
    let ghost total = layered_selection_from(pool@, q, dedup, difficulty, old(rng)@, 0);
    let mut selected: Vec<usize> = Vec::new();
    let mut k: usize = 0;
    while k < quotas.len()
        invariant
            quotas@ == q,
            q == quota_seq(layers@, problem_count as nat),
            total == layered_selection_from(pool@, q, dedup, difficulty, old(rng)@, 0),
            q.len() == layers@.len(),
            k <= q.len(),
            1 <= difficulty <= 4,
            problem_count <= usize::MAX - 4,
            quota_sum(layers@, problem_count as nat, layers@.len() as int) == problem_count,
            forall|i: int| 0 <= i < q.len() ==> #[trigger] q[i] == layer_quota(layers@, problem_count as nat, i),
            after_prefix(selected@, layered_selection_from(pool@, q, dedup, difficulty, rng@, k as nat)) == total,
        decreases q.len() - k,
    {
        let quota = quotas[k];
        if quota != 0 {
            proof {
                lemma_quota_le_sum(layers@, problem_count as nat, k as int, layers@.len() as int);
            }
            let layer_pool = in_layer_exec(pool, k);
            let ghost before = selected@;
            let ghost state_before = rng@;
            match select_candidates(&layer_pool, dedup, quota, difficulty, rng) {
                Ok(picks) => {
                    proof {
                        let rest = layered_selection_from(pool@, q, dedup, difficulty, rng@, (k + 1) as nat);
                        match rest.0 {
                            Ok(more) => {
                                assert(before + (picks@ + more) =~= (before + picks@) + more);
                            },
                            Err(e) => {},
                        }
                    }
                    let mut picks = picks;
                    selected.append(&mut picks);
                },
                Err(e) => {
                    proof {
                        assert(layered_selection_from(pool@, q, dedup, difficulty, state_before, k as nat) == (
                            Err::<Seq<usize>, SamplingError>(e),
                            rng@,
                        ));
                    }
                    return Err(e);
                },
            }
        }
        k += 1;
    }
    proof {
        assert(selected@ + Seq::<usize>::empty() =~= selected@);
    }
    Ok(selected)
}

/// Whether each layer from `k` on holds enough distinct keys for its quota
/// (four more for a ranked difficulty); the first layer short of them is an
/// error.
pub open spec fn layer_capacity_from(pool: Seq<PoolEntry>, quotas: Seq<usize>, difficulty: u8, k: nat) -> Result<
    (),
    SamplingError,
>
    decreases quotas.len() - k,
{
    if k >= quotas.len() {
        Ok(())
    } else {
        let required = if is_random_difficulty(difficulty) {
            quotas[k as int] as nat
        } else {
            (quotas[k as int] + 2 * effort_trim()) as nat
        };
        let available = first_of_each_key(in_layer(pool, k as int)).len();
        if available < required {
            Err(SamplingError::InsufficientDistinctCandidates { required: required as usize, available: available as usize })
        } else {
            layer_capacity_from(pool, quotas, difficulty, k + 1)
        }
    }
}

/// Checks, before any draw, that every layer of a layered pool can meet its
/// quota (see `layer_capacity_from`).
pub fn ensure_layered_pool_capacity(
    pool: &Vec<PoolEntry>,
    layers: &SamplingLayers,
    problem_count: usize,
    difficulty: u8,
) -> (r: Result<(), SamplingError>)
    requires
        problem_count <= usize::MAX - 4,
        layers@.len() > 0,
        minimum_total(layers@) <= problem_count,
        weight_total(layers@) <= u64::MAX,
    ensures
        r == layer_capacity_from(pool@, quota_seq(layers@, problem_count as nat), difficulty, 0),
{
    let quotas = layered_quotas(layers, problem_count);
    let ghost q = quota_seq(layers@, problem_count as nat);
    proof {
        assert(quotas@ =~= q);
        lemma_quotas_fill_worksheet(layers@, problem_count as nat);
    }
    let mut k: usize = 0;
    while k < quotas.len()
        invariant
            quotas@ == q,
            q == quota_seq(layers@, problem_count as nat),
            q.len() == layers@.len(),
            k <= q.len(),
            problem_count <= usize::MAX - 4,
            quota_sum(layers@, problem_count as nat, layers@.len() as int) == problem_count,
            layer_capacity_from(pool@, q, difficulty, 0) == layer_capacity_from(pool@, q, difficulty, k as nat),
        decreases q.len() - k,
    {
        proof {
            lemma_quota_le_sum(layers@, problem_count as nat, k as int, layers@.len() as int);
        }
        let quota = quotas[k];
        let required = if difficulty == 4 {
            quota
        } else {
            quota + 4
        };
        let available = first_of_each_key_exec(&in_layer_exec(pool, k)).len();
        if available < required {
            return Err(SamplingError::InsufficientDistinctCandidates { required, available });
        }
        k += 1;
    }
    Ok(())
}

/// Whether a pool holds at least twice as many distinct keys as the
/// worksheet has problems.
pub open spec fn pool_diversity(pool: Seq<PoolEntry>, problem_count: nat) -> Result<(), SamplingError> {
    let available = first_of_each_key(pool).len();
    if available < 2 * problem_count {
        Err(
            SamplingError::InsufficientDistinctCandidates {
                required: (2 * problem_count) as usize,
                available: available as usize,
            },
        )
    } else {
        Ok(())
    }
}

/// Checks that a sampled pool is diverse enough (see `pool_diversity`).
pub fn ensure_pool_diversity(pool: &Vec<PoolEntry>, problem_count: usize) -> (r: Result<(), SamplingError>)
    requires
        2 * problem_count <= usize::MAX,
    ensures
        r == pool_diversity(pool@, problem_count as nat),
{
    let available = first_of_each_key_exec(pool).len();
    if available < 2 * problem_count {
        Err(SamplingError::InsufficientDistinctCandidates { required: 2 * problem_count, available })
    } else {
        Ok(())
    }
}

/// The total of a sequence of counts.
pub open spec fn seq_total(s: Seq<usize>) -> nat
    decreases s.len(),
{
    if s.len() == 0 {
        0
    } else {
        seq_total(s.drop_last()) + s.last() as nat
    }
}

proof fn lemma_seq_total_prefix(specs: Seq<SamplingLayerSpec>, problem_count: nat, quotas: Seq<usize>, k: int)
    requires
        0 <= k <= quotas.len(),
        quotas.len() == specs.len(),
        forall|i: int| 0 <= i < quotas.len() ==> #[trigger] quotas[i] == layer_quota(specs, problem_count, i),
    ensures
        seq_total(quotas.take(k)) == quota_sum(specs, problem_count, k),
    decreases k,
{
    if k > 0 {
        assert(quotas.take(k).drop_last() =~= quotas.take(k - 1));
        lemma_seq_total_prefix(specs, problem_count, quotas, k - 1);
    }
}

/// Layered quotas fill the worksheet exactly: the quotas that
/// `layered_quotas` gives add up to the problem count.
pub proof fn lemma_layered_quotas_total(specs: Seq<SamplingLayerSpec>, problem_count: nat, quotas: Seq<usize>)
    requires
        specs.len() > 0,
        minimum_total(specs) <= problem_count,
        quotas.len() == specs.len(),
        forall|i: int| 0 <= i < quotas.len() ==> #[trigger] quotas[i] == layer_quota(specs, problem_count, i),
    ensures
        seq_total(quotas) == problem_count,
{
    lemma_seq_total_prefix(specs, problem_count, quotas, quotas.len() as int);
    assert(quotas.take(quotas.len() as int) =~= quotas);
    lemma_quotas_fill_worksheet(specs, problem_count);
}

/// No two entries of `s` share a key.
pub open spec fn keys_distinct(s: Seq<PoolEntry>) -> bool {
    forall|i: int, j: int| 0 <= i < s.len() && 0 <= j < s.len() && i != j ==> #[trigger] s[i].key != #[trigger] s[j].key
}

proof fn lemma_first_of_each_key_distinct(pool: Seq<PoolEntry>)
    ensures
        first_of_each_key(pool).len() <= pool.len(),
        keys_distinct(first_of_each_key(pool)),
        forall|i: int| 0 <= i < first_of_each_key(pool).len() ==> pool.contains(#[trigger] first_of_each_key(pool)[i]),
    decreases pool.len(),
{
    if pool.len() > 0 {
        let init = pool.drop_last();
        lemma_first_of_each_key_distinct(init);
        let d = first_of_each_key(init);
        assert forall|i: int| 0 <= i < d.len() implies pool.contains(#[trigger] d[i]) by {
            let k = choose|k: int| 0 <= k < init.len() && init[k] == d[i];
            assert(pool[k] == d[i]);
        }
        if !key_taken(d, pool.last().key) {
            let e = d.push(pool.last());
            assert forall|i: int, j: int| 0 <= i < e.len() && 0 <= j < e.len() && i != j implies #[trigger] e[i].key
                != #[trigger] e[j].key by {
                if i == d.len() as int {
                    assert(d[j].key != pool.last().key);
                } else if j == d.len() as int {
                    assert(d[i].key != pool.last().key);
                }
            }
            assert forall|i: int| 0 <= i < e.len() implies pool.contains(#[trigger] e[i]) by {
                if i == d.len() as int {
                    assert(pool[pool.len() - 1] == e[i]);
                } else {
                    assert(pool.contains(d[i]));
                }
            }
        }
    }
}

proof fn lemma_random_picks_distinct(state: u64, pool: Seq<PoolEntry>, count: nat)
    requires
        keys_distinct(pool),
        count <= pool.len(),
        pool.len() <= u64::MAX,
    ensures
        random_picks(state, pool, count).0.len() == count,
        keys_distinct(random_picks(state, pool, count).0),
        forall|i: int| 0 <= i < count ==> pool.contains(#[trigger] random_picks(state, pool, count).0[i]),
    decreases count,
{
    if count > 0 {
        let n = pool.len();
        let (j, s1) = bounded_draw(state, n as u64, MAX_REJECTED_DRAWS as nat);
        lemma_bounded_draw_below(state, n as u64, MAX_REJECTED_DRAWS as nat);
        let chosen = pool[j as int];
        let rest_pool = pool.update(j as int, pool.last()).drop_last();
        assert forall|i: int| 0 <= i < rest_pool.len() implies #[trigger] rest_pool[i] == (if i == j as int {
            pool[n - 1]
        } else {
            pool[i]
        }) by {}
        assert(keys_distinct(rest_pool)) by {
            assert forall|a: int, b: int| 0 <= a < rest_pool.len() && 0 <= b < rest_pool.len() && a != b implies #[trigger] rest_pool[a].key
                != #[trigger] rest_pool[b].key by {
                let ia = if a == j as int { n - 1 } else { a };
                let ib = if b == j as int { n - 1 } else { b };
                assert(rest_pool[a] == pool[ia]);
                assert(rest_pool[b] == pool[ib]);
            }
        }
        lemma_random_picks_distinct(s1, rest_pool, (count - 1) as nat);
        let more = random_picks(s1, rest_pool, (count - 1) as nat).0;
        let all = seq![chosen] + more;
        assert(random_picks(state, pool, count).0 == all);
        assert forall|i: int| 0 <= i < more.len() implies #[trigger] more[i].key != chosen.key && pool.contains(more[i]) by {
            assert(rest_pool.contains(more[i]));
            let k = choose|k: int| 0 <= k < rest_pool.len() && rest_pool[k] == more[i];
            let ik = if k == j as int { n - 1 } else { k };
            assert(rest_pool[k] == pool[ik]);
            assert(ik != j as int);
        }
        assert forall|a: int, b: int| 0 <= a < all.len() && 0 <= b < all.len() && a != b implies #[trigger] all[a].key
            != #[trigger] all[b].key by {
            if a == 0 {
                assert(all[b] == more[b - 1]);
            } else if b == 0 {
                assert(all[a] == more[a - 1]);
            } else {
                assert(all[a] == more[a - 1]);
                assert(all[b] == more[b - 1]);
            }
        }
        assert forall|i: int| 0 <= i < count implies pool.contains(#[trigger] all[i]) by {
            if i > 0 {
                assert(all[i] == more[i - 1]);
            }
        }
    }
}

/// A random-difficulty selection that succeeds gives `count` positions of
/// pool candidates whose keys are pairwise different.
pub proof fn lemma_random_selection_distinct(pool: Seq<PoolEntry>, dedup: SelectionDedup, count: nat, state: u64)
    requires
        pool.len() <= u64::MAX,
    ensures
        selection(pool, dedup, count, 4, state).0 matches Ok(positions) ==> exists|picks: Seq<PoolEntry>|
            #![trigger picks.len()]
            picks.len() == count && keys_distinct(picks) && (forall|i: int| 0 <= i < count ==> pool.contains(#[trigger] picks[i]))
                && positions == picks.map_values(|e: PoolEntry| e.index),
{
    let firsts = first_of_each_key(pool);
    lemma_first_of_each_key_distinct(pool);
    if firsts.len() >= count {
        lemma_random_picks_distinct(state, firsts, count);
        let picks = random_picks(state, firsts, count).0;
        assert forall|i: int| 0 <= i < count implies pool.contains(#[trigger] picks[i]) by {
            let k = choose|k: int| 0 <= k < firsts.len() && firsts[k] == picks[i];
            assert(pool.contains(firsts[k]));
        }
        assert(picks.len() == count);
    }
}

/// The keys that occur in `s`.
pub open spec fn keyset(s: Seq<PoolEntry>) -> Set<u64> {
    Set::new(|k: u64| key_taken(s, k))
}

proof fn lemma_keyset_push(s: Seq<PoolEntry>, x: PoolEntry)
    ensures
        keyset(s.push(x)) == keyset(s).insert(x.key),
{
    let t = s.push(x);
    assert forall|k: u64| key_taken(t, k) <==> (key_taken(s, k) || x.key == k) by {
        if key_taken(t, k) {
            let j = choose|j: int| 0 <= j < t.len() && #[trigger] t[j].key == k;
            if j < s.len() {
                assert(s[j].key == k);
            }
        }
        if key_taken(s, k) {
            let j = choose|j: int| 0 <= j < s.len() && #[trigger] s[j].key == k;
            assert(t[j].key == k);
        }
        if x.key == k {
            assert(t[s.len() as int].key == k);
        }
    }
    assert(keyset(t) =~= keyset(s).insert(x.key));
}

proof fn lemma_keyset_finite(s: Seq<PoolEntry>)
    ensures
        keyset(s).finite(),
        keyset(s).len() <= s.len(),
    decreases s.len(),
{
    if s.len() == 0 {
        assert(keyset(s) =~= Set::<u64>::empty());
    } else {
        lemma_keyset_finite(s.drop_last());
        assert(s.drop_last().push(s.last()) =~= s);
        lemma_keyset_push(s.drop_last(), s.last());
    }
}

proof fn lemma_first_of_each_key_count(s: Seq<PoolEntry>)
    ensures
        keyset(first_of_each_key(s)) == keyset(s),
        first_of_each_key(s).len() == keyset(s).len(),
    decreases s.len(),
{
    if s.len() == 0 {
        assert(keyset(s) =~= Set::<u64>::empty());
    } else {
        let init = s.drop_last();
        lemma_first_of_each_key_count(init);
        lemma_keyset_finite(init);
        assert(init.push(s.last()) =~= s);
        lemma_keyset_push(init, s.last());
        let d = first_of_each_key(init);
        if key_taken(d, s.last().key) {
            assert(keyset(init).contains(s.last().key));
            assert(keyset(s) =~= keyset(init));
        } else {
            lemma_keyset_push(d, s.last());
            assert(!keyset(init).contains(s.last().key));
        }
    }
}

proof fn lemma_without_key_keyset(s: Seq<PoolEntry>, k: u64)
    ensures
        keyset(without_key(s, k)) == keyset(s).remove(k),
        without_key(s, k).len() <= s.len(),
    decreases s.len(),
{
    if s.len() == 0 {
        assert(keyset(s) =~= Set::<u64>::empty());
        assert(keyset(s).remove(k) =~= Set::<u64>::empty());
    } else {
        let init = s.drop_last();
        lemma_without_key_keyset(init, k);
        assert(init.push(s.last()) =~= s);
        lemma_keyset_push(init, s.last());
        if s.last().key == k {
            assert(keyset(s).remove(k) =~= keyset(init).remove(k));
        } else {
            lemma_keyset_push(without_key(init, k), s.last());
            assert(keyset(s).remove(k) =~= keyset(init).remove(k).insert(s.last().key));
        }
    }
}

proof fn lemma_remove_keyset(s: Seq<PoolEntry>, p: int)
    requires
        0 <= p < s.len(),
    ensures
        keyset(s.remove(p)).remove(s[p].key) == keyset(s).remove(s[p].key),
        keyset(s).contains(s[p].key),
{
    let r = s.remove(p);
    let k0 = s[p].key;
    assert forall|k: u64| k != k0 implies (key_taken(r, k) <==> key_taken(s, k)) by {
        if key_taken(r, k) {
            let j = choose|j: int| 0 <= j < r.len() && #[trigger] r[j].key == k;
            if j < p {
                assert(s[j].key == k);
            } else {
                assert(s[j + 1].key == k);
            }
        }
        if key_taken(s, k) {
            let j = choose|j: int| 0 <= j < s.len() && #[trigger] s[j].key == k;
            assert(j != p);
            if j < p {
                assert(r[j].key == k);
            } else {
                assert(r[j - 1].key == k);
            }
        }
    }
    assert(keyset(r).remove(k0) =~= keyset(s).remove(k0));
    assert(key_taken(s, k0));
}

proof fn lemma_ranked_picks_len(state: u64, pool: Seq<PoolEntry>, difficulty: u8, m: nat)
    requires
        keyset(pool).len() >= m,
        pool.len() <= u64::MAX,
    ensures
        ranked_picks(state, pool, difficulty, m).0.len() == m,
    decreases m,
{
    lemma_keyset_finite(pool);
    if m > 0 {
        if pool.len() == 0 {
            assert(keyset(pool) =~= Set::<u64>::empty());
        }
        let n = pool.len() as u64;
        let (ds, s1) = one_based_draws(state, n, 5);
        lemma_draws_within(state, n, 5);
        lemma_sorted_seq_within(ds, 1, n as int);
        let position = sorted_seq(ds)[order_statistic(difficulty)] - 1;
        let chosen = pool[position];
        let removed = pool.remove(position);
        let rest = without_key(removed, chosen.key);
        lemma_remove_keyset(pool, position);
        lemma_without_key_keyset(removed, chosen.key);
        lemma_keyset_finite(removed);
        assert(keyset(pool).remove(chosen.key).len() == keyset(pool).len() - 1);
        lemma_ranked_picks_len(s1, rest, difficulty, (m - 1) as nat);
    }
}

proof fn lemma_keyset_prepend(a: PoolEntry, t: Seq<PoolEntry>)
    ensures
        keyset(seq![a] + t) == keyset(t).insert(a.key),
{
    let u = seq![a] + t;
    assert forall|k: u64| key_taken(u, k) <==> (key_taken(t, k) || a.key == k) by {
        if key_taken(u, k) {
            let j = choose|j: int| 0 <= j < u.len() && #[trigger] u[j].key == k;
            if j > 0 {
                assert(t[j - 1].key == k);
            }
        }
        if key_taken(t, k) {
            let j = choose|j: int| 0 <= j < t.len() && #[trigger] t[j].key == k;
            assert(u[j + 1].key == k);
        }
        if a.key == k {
            assert(u[0].key == k);
        }
    }
    assert(keyset(u) =~= keyset(t).insert(a.key));
}

proof fn lemma_rank_insert_keyset(s: Seq<PoolEntry>, x: PoolEntry)
    ensures
        keyset(rank_insert(s, x)) == keyset(s).insert(x.key),
        rank_insert(s, x).len() == s.len() + 1,
    decreases s.len(),
{
    if s.len() == 0 {
        assert(seq![x] =~= Seq::<PoolEntry>::empty().push(x));
        lemma_keyset_push(Seq::<PoolEntry>::empty(), x);
    } else {
        assert(s =~= seq![s[0]] + s.drop_first());
        lemma_keyset_prepend(s[0], s.drop_first());
        if x.rank <= s[0].rank {
            lemma_keyset_prepend(x, s);
        } else {
            lemma_rank_insert_keyset(s.drop_first(), x);
            lemma_keyset_prepend(s[0], rank_insert(s.drop_first(), x));
            assert(keyset(s.drop_first()).insert(x.key).insert(s[0].key) =~= keyset(s.drop_first()).insert(
                s[0].key,
            ).insert(x.key));
        }
    }
}

proof fn lemma_rank_sorted_keyset(s: Seq<PoolEntry>)
    ensures
        keyset(rank_sorted(s)) == keyset(s),
        rank_sorted(s).len() == s.len(),
    decreases s.len(),
{
    if s.len() > 0 {
        lemma_rank_sorted_keyset(s.drop_last());
        lemma_rank_insert_keyset(rank_sorted(s.drop_last()), s.last());
        assert(s.drop_last().push(s.last()) =~= s);
        lemma_keyset_push(s.drop_last(), s.last());
    }
}

/// A selection that succeeds gives exactly `count` positions.
pub proof fn lemma_selection_count(pool: Seq<PoolEntry>, dedup: SelectionDedup, count: nat, difficulty: u8, state: u64)
    requires
        pool.len() <= u64::MAX,
        1 <= difficulty <= 4,
    ensures
        selection(pool, dedup, count, difficulty, state).0 matches Ok(positions) ==> positions.len() == count,
{
    let firsts = first_of_each_key(pool);
    lemma_first_of_each_key_distinct(pool);
    lemma_first_of_each_key_count(pool);
    if is_random_difficulty(difficulty) {
        if firsts.len() >= count {
            lemma_random_picks_distinct(state, firsts, count);
        }
    } else if firsts.len() >= count + 4 {
        let working = if dedup == SelectionDedup::Deduplicate {
            firsts
        } else {
            pool
        };
        lemma_rank_sorted_keyset(working);
        let m = count + 2 * effort_trim();
        lemma_ranked_picks_len(state, rank_sorted(working), difficulty, m);
        let picks = ranked_picks(state, rank_sorted(working), difficulty, m).0;
        lemma_rank_sorted_keyset(picks);
    }
}

/// The candidates a selection chooses (see `selection`, which gives their
/// positions), and the generator state after.
pub open spec fn selection_entries(
    pool: Seq<PoolEntry>,
    dedup: SelectionDedup,
    count: nat,
    difficulty: u8,
    state: u64,
) -> (Result<Seq<PoolEntry>, SamplingError>, u64) {
    let firsts = first_of_each_key(pool);
    let working = if dedup == SelectionDedup::Deduplicate || is_random_difficulty(difficulty) {
        firsts
    } else {
        pool
    };
    let required = if is_random_difficulty(difficulty) {
        count
    } else {
        count + 2 * effort_trim()
    };
    if firsts.len() < required {
        (
            Err(
                SamplingError::InsufficientDistinctCandidates {
                    required: required as usize,
                    available: firsts.len() as usize,
                },
            ),
            state,
        )
    } else if is_random_difficulty(difficulty) {
        let (picks, s) = random_picks(state, working, count);
        (Ok(picks), s)
    } else {
        let (picks, s) = ranked_picks(state, rank_sorted(working), difficulty, count + 2 * effort_trim());
        let ordered = rank_sorted(picks);
        let lo = if ordered.len() < effort_trim() {
            ordered.len()
        } else {
            effort_trim()
        };
        let hi = if ordered.len() < lo + count {
            ordered.len()
        } else {
            lo + count
        };
        (Ok(ordered.subrange(lo as int, hi as int)), s)
    }
}

fn entries_between(v: &Vec<PoolEntry>, lo: usize, hi: usize) -> (r: Vec<PoolEntry>)
    requires
        lo <= hi <= v@.len(),
    ensures
        r@ == v@.subrange(lo as int, hi as int),
{
    let mut out: Vec<PoolEntry> = Vec::new();
    let mut k: usize = lo;
    while k < hi
        invariant
            lo <= k <= hi <= v@.len(),
            out@ == v@.subrange(lo as int, k as int),
        decreases hi - k,
    {
        out.push(v[k]);
        proof {
            assert(out@ =~= v@.subrange(lo as int, k + 1));
        }
        k += 1;
    }
    out
}

/// The candidates of a selection as `selection_entries` states them.
pub open spec fn entries_view(r: Result<Vec<PoolEntry>, SamplingError>) -> Result<Seq<PoolEntry>, SamplingError> {
    match r {
        Ok(v) => Ok(v@),
        Err(e) => Err(e),
    }
}

/// Chooses a worksheet's candidates from a pool (see `selection_entries`).
pub fn select_entries(
    pool: &Vec<PoolEntry>,
    dedup: SelectionDedup,
    count: usize,
    difficulty: u8,
    rng: &mut DeterministicRng,
) -> (r: Result<Vec<PoolEntry>, SamplingError>)
    requires
        1 <= difficulty <= 4,
        count <= usize::MAX - 4,
    ensures
        (entries_view(r), final(rng)@) == selection_entries(pool@, dedup, count as nat, difficulty, old(rng)@),
{
    let firsts = first_of_each_key_exec(pool);
    let random = difficulty == 4;
    let required = if random {
        count
    } else {
        count + 4
    };
    if firsts.len() < required {
        return Err(SamplingError::InsufficientDistinctCandidates { required, available: firsts.len() });
    }
    let working = if dedup == SelectionDedup::Deduplicate || random {
        firsts
    } else {
        copy_entries(pool)
    };
    if random {
        return Ok(random_picks_exec(working, count, rng));
    }
    let ordered_pool = rank_sorted_exec(&working);
    let picks = ranked_picks_exec(ordered_pool, difficulty, count + 4, rng);
    let ordered = rank_sorted_exec(&picks);
    let lo = if ordered.len() < 2 {
        ordered.len()
    } else {
        2
    };
    let hi = if ordered.len() - lo < count {
        ordered.len()
    } else {
        lo + count
    };
    Ok(entries_between(&ordered, lo, hi))
}

} // verus!
