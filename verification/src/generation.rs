//! Generating a worksheet: the decisions of the candidate-pool loop as a
//! state machine, and the steps that turn a finished pool into numbered
//! problems. Drawing a candidate from a theme generator, and reading the
//! clock, stay with the caller, who hands back what happened.

use vstd::prelude::*;
use crate::config::{
    attempt_outcome, duration_as_millis, saturated_millis, timed_out, GenerationBudget, GenerationConfig,
};
use crate::error::{GenerationError, SamplingError};
use crate::rng::DeterministicRng;
use crate::sampling::{
    arrange_worksheet, effort_trim, ensure_layered_pool_capacity, ensure_pool_diversity, entries_view, in_layer,
    in_layer_exec,
    is_random_difficulty, layer_capacity_from, layer_quota, layered_quotas, lemma_quota_le_sum,
    lemma_quotas_fill_worksheet, minimum_total, pool_diversity, presentation, quota_seq, quota_sum, select_entries,
    selection_entries, weight_total, PoolEntry, SamplingLayers, SelectionDedup,
};
use crate::theme::SamplingLayerSpec;

verus! {

/// What the caller reports after carrying out the previous action: the run
/// has just started, the generator had no candidate, the candidate was
/// refused by the curriculum filter, it was accepted (with its semantic key
/// and sampling layer), or it broke the strategy's contract.
#[derive(Clone, Debug, PartialEq, Eq)]
pub enum PoolEvent {
    Start,
    NoCandidate,
    Rejected,
    Accepted { key: u64, layer: usize },
    Invalid(GenerationError),
}

/// What the caller does next: draw a candidate for `layer` with the given
/// attempt ordinal (choosing a fresh answer first when `new_slot` is set),
/// stop because the pool is complete, or stop with an error.
#[derive(Clone, Debug, PartialEq, Eq)]
pub enum PoolAction {
    Draw { layer: usize, ordinal: u32, new_slot: bool },
    Done,
    Fail(GenerationError),
}

/// The state of a pool being built: the work budget, the number of slots
/// of each layer, the layer being filled and the slots of it filled so far,
/// the accepted candidates, and whether every draw fills a slot (a finite
/// source walked once) or only an accepted one does.
pub struct PoolBuild {
    budget: GenerationBudget,
    targets: Vec<usize>,
    layer: usize,
    filled: usize,
    entries: Vec<PoolEntry>,
    exhaustive: bool,
}

/// The model of a pool being built.
pub struct PoolStatus {
    pub budget: GenerationBudget,
    pub targets: Seq<usize>,
    pub layer: nat,
    pub filled: nat,
    pub entries: Seq<PoolEntry>,
    pub exhaustive: bool,
}

impl View for PoolBuild {
    type V = PoolStatus;

    closed spec fn view(&self) -> PoolStatus {
        PoolStatus {
            budget: self.budget,
            targets: self.targets@,
            layer: self.layer as nat,
            filled: self.filled as nat,
            entries: self.entries@,
            exhaustive: self.exhaustive,
        }
    }
}

/// The first layer from `layer` on that still has an open slot, and the
/// slots of it filled (layers whose slots are all filled are passed over).
pub open spec fn next_open(targets: Seq<usize>, layer: nat, filled: nat) -> (nat, nat)
    decreases targets.len() - layer,
{
    if layer >= targets.len() {
        (layer, filled)
    } else if filled >= targets[layer as int] {
        next_open(targets, layer + 1, 0)
    } else {
        (layer, filled)
    }
}

/// The attempt ordinal handed to a generator: the attempt count, held to
/// `u32`.
pub open spec fn attempt_ordinal(attempts: u64) -> u32 {
    if attempts > u32::MAX {
        u32::MAX
    } else {
        attempts as u32
    }
}

/// One step of the pool loop. A contract violation stops the run. An
/// accepted candidate joins the pool and fills a slot; a missing or refused
/// one fills a slot only for a finite source, and is otherwise retried.
/// When every slot is filled the watchdog is looked at once more and the
/// pool is done; otherwise one attempt is spent (see `attempt_outcome`)
/// and the next draw is asked for.
pub open spec fn pool_transition(s: PoolStatus, event: PoolEvent, elapsed_ms: u64) -> (PoolStatus, PoolAction) {
    match event {
        PoolEvent::Invalid(e) => (s, PoolAction::Fail(e)),
        _ => {
            let slot_done = match event {
                PoolEvent::Accepted { .. } => true,
                PoolEvent::Start => false,
                _ => s.exhaustive,
            };
            let entries = match event {
                PoolEvent::Accepted { key, layer } => s.entries.push(
                    PoolEntry { index: s.entries.len() as usize, key, rank: 0, layer },
                ),
                _ => s.entries,
            };
            let filled = if slot_done {
                s.filled + 1
            } else {
                s.filled
            };
            let (layer, filled) = next_open(s.targets, s.layer, filled);
            let moved = PoolStatus { layer, filled, entries, ..s };
            if layer >= s.targets.len() {
                if timed_out(elapsed_ms, s.budget.timeout_ms) {
                    (moved, PoolAction::Fail(GenerationError::Timeout { timeout_ms: s.budget.timeout_ms }))
                } else {
                    (moved, PoolAction::Done)
                }
            } else {
                match attempt_outcome(s.budget, elapsed_ms) {
                    Err(e) => (moved, PoolAction::Fail(e)),
                    Ok(n) => (
                        PoolStatus { budget: GenerationBudget { attempts: n, ..s.budget }, ..moved },
                        PoolAction::Draw {
                            layer: layer as usize,
                            ordinal: attempt_ordinal(n),
                            new_slot: slot_done || event is Start,
                        },
                    ),
                }
            }
        },
    }
}

impl PoolBuild {
    /// A pool to build with `targets[i]` slots for layer `i` (one layer for
    /// an unlayered strategy), under the budget of `config`.
    pub fn new(targets: Vec<usize>, exhaustive: bool, config: &GenerationConfig) -> (r: Self)
        ensures
            r@.budget.attempts == 0,
            r@.budget.max_attempts == config.max_attempts,
            r@.budget.timeout_ms == saturated_millis(duration_as_millis(config.timeout)),
            r@.targets == targets@,
            r@.layer == 0,
            r@.filled == 0,
            r@.entries == Seq::<PoolEntry>::empty(),
            r@.exhaustive == exhaustive,
    {
        PoolBuild { budget: GenerationBudget::new(config), targets, layer: 0, filled: 0, entries: Vec::new(), exhaustive }
    }

    /// The candidates accepted so far, in order of acceptance; each one's
    /// index is its place in that order.
    pub fn entries(&self) -> (r: &Vec<PoolEntry>)
        ensures
            r@ == self@.entries,
    {
        &self.entries
    }

    /// The layer being filled and how many of its slots are filled.
    pub fn progress(&self) -> (r: (usize, usize))
        ensures
            r.0 == self@.layer,
            r.1 == self@.filled,
    {
        (self.layer, self.filled)
    }

    /// The work budget as spent so far.
    pub fn budget(&self) -> (r: GenerationBudget)
        ensures
            r == self@.budget,
    {
        self.budget
    }

    /// Takes one step of the pool loop (see `pool_transition`).
    pub fn step(&mut self, event: PoolEvent, elapsed_ms: u64) -> (r: PoolAction)
        requires
            old(self)@.entries.len() < usize::MAX,
            old(self)@.filled < usize::MAX,
        ensures
            (final(self)@, r) == pool_transition(old(self)@, event, elapsed_ms),
    {
        let (slot_done, start) = match event {
            PoolEvent::Invalid(e) => {
                return PoolAction::Fail(e);
            },
            PoolEvent::Accepted { key, layer } => {
                let index = self.entries.len();
                self.entries.push(PoolEntry { index, key, rank: 0, layer });
                (true, false)
            },
            PoolEvent::Start => (false, true),
            _ => (self.exhaustive, false),
        };
        if slot_done {
            self.filled = self.filled + 1;
        }
        let ghost targets = self.targets@;
        let ghost budget = self.budget;
        let ghost entries = self.entries@;
        let ghost exhaustive = self.exhaustive;
        let ghost goal = next_open(targets, self.layer as nat, self.filled as nat);
        while self.layer < self.targets.len() && self.filled >= self.targets[self.layer]
            invariant
                self.targets@ == targets,
                self.budget == budget,
                self.entries@ == entries,
                self.exhaustive == exhaustive,
                next_open(targets, self.layer as nat, self.filled as nat) == goal,
            decreases targets.len() - self.layer,
        {
            self.layer = self.layer + 1;
            self.filled = 0;
        }
        if self.layer >= self.targets.len() {
            if elapsed_ms >= self.budget.timeout_ms {
                return PoolAction::Fail(GenerationError::timeout_millis(self.budget.timeout_ms));
            }
            return PoolAction::Done;
        }
        match self.budget.consume_attempt(elapsed_ms) {
            Err(e) => PoolAction::Fail(e),
            Ok(()) => {
                let attempts = self.budget.attempts;
                let ordinal: u32 = if attempts > 0xFFFF_FFFFu64 {
                    0xFFFF_FFFFu32
                } else {
                    attempts as u32
                };
                PoolAction::Draw { layer: self.layer, ordinal, new_slot: slot_done || start }
            },
        }
    }
}

/// Gives each accepted candidate its rank in the pool's order by effort:
/// `ranks[i]` for the candidate at place `i`.
pub fn assign_ranks(entries: &Vec<PoolEntry>, ranks: &Vec<usize>) -> (r: Vec<PoolEntry>)
    requires
        ranks@.len() == entries@.len(),
    ensures
        r@.len() == entries@.len(),
        forall|i: int| 0 <= i < r@.len() ==> #[trigger] r@[i] == (PoolEntry { rank: ranks@[i], ..entries@[i] }),
{
    let mut out: Vec<PoolEntry> = Vec::new();
    let mut k: usize = 0;
    while k < entries.len()
        invariant
            k <= entries@.len(),
            ranks@.len() == entries@.len(),
            out@.len() == k,
            forall|i: int| 0 <= i < k ==> #[trigger] out@[i] == (PoolEntry { rank: ranks@[i], ..entries@[i] }),
        decreases entries@.len() - k,
    {
        let e = entries[k];
        out.push(PoolEntry { index: e.index, key: e.key, rank: ranks[k], layer: e.layer });
        k += 1;
    }
    out
}

/// Spends `k` attempts one after another (see `attempt_outcome`); the
/// first that fails stops it. The outcome and the budget after.
pub open spec fn spend_attempts(budget: GenerationBudget, elapsed_ms: u64, k: nat) -> (
    Result<(), GenerationError>,
    GenerationBudget,
)
    decreases k,
{
    if k == 0 {
        (Ok(()), budget)
    } else {
        match attempt_outcome(budget, elapsed_ms) {
            Err(e) => (Err(e), budget),
            Ok(n) => spend_attempts(GenerationBudget { attempts: n, ..budget }, elapsed_ms, (k - 1) as nat),
        }
    }
}

fn spend_attempts_exec(budget: &mut GenerationBudget, elapsed_ms: u64, k: usize) -> (r: Result<(), GenerationError>)
    ensures
        (r, *final(budget)) == spend_attempts(*old(budget), elapsed_ms, k as nat),
{
    let mut i: usize = 0;
    while i < k
        invariant
            i <= k,
            spend_attempts(*budget, elapsed_ms, (k - i) as nat) == spend_attempts(*old(budget), elapsed_ms, k as nat),
        decreases k - i,
    {
        match budget.consume_attempt(elapsed_ms) {
            Err(e) => {
                return Err(e);
            },
            Ok(()) => {},
        }
        i += 1;
    }
    Ok(())
}

/// How many draws a selection of `count` makes: one per problem at random
/// difficulty, four more at a ranked one.
pub open spec fn picks_needed(count: nat, difficulty: u8) -> nat {
    if is_random_difficulty(difficulty) {
        count
    } else {
        count + 2 * effort_trim()
    }
}

/// A selection (see `selection_entries`) that spends one attempt per draw:
/// the chosen candidates or the error, the generator state and the budget
/// after.
pub open spec fn budgeted_selection(
    pool: Seq<PoolEntry>,
    dedup: SelectionDedup,
    count: nat,
    difficulty: u8,
    state: u64,
    budget: GenerationBudget,
    elapsed_ms: u64,
) -> (Result<Seq<PoolEntry>, GenerationError>, u64, GenerationBudget) {
    let (r, s) = selection_entries(pool, dedup, count, difficulty, state);
    match r {
        Err(e) => (Err(GenerationError::InvalidSampling(e)), s, budget),
        Ok(picks) => {
            let (spent, b) = spend_attempts(budget, elapsed_ms, picks_needed(count, difficulty));
            match spent {
                Err(e) => (Err(e), s, b),
                Ok(_) => (Ok(picks), s, b),
            }
        },
    }
}

/// A layered selection from layer `k` on, spending one attempt per draw:
/// each layer with a nonzero quota is selected from its own candidates in
/// layer order, and the first error stops it.
pub open spec fn budgeted_layers_from(
    pool: Seq<PoolEntry>,
    quotas: Seq<usize>,
    dedup: SelectionDedup,
    difficulty: u8,
    state: u64,
    budget: GenerationBudget,
    elapsed_ms: u64,
    k: nat,
) -> (Result<Seq<PoolEntry>, GenerationError>, u64, GenerationBudget)
    decreases quotas.len() - k,
{
    if k >= quotas.len() {
        (Ok(Seq::empty()), state, budget)
    } else if quotas[k as int] == 0 {
        budgeted_layers_from(pool, quotas, dedup, difficulty, state, budget, elapsed_ms, k + 1)
    } else {
        let (r, s1, b1) = budgeted_selection(
            in_layer(pool, k as int),
            dedup,
            quotas[k as int] as nat,
            difficulty,
            state,
            budget,
            elapsed_ms,
        );
        match r {
            Err(e) => (Err(e), s1, b1),
            Ok(picks) => {
                let (rest, s2, b2) = budgeted_layers_from(pool, quotas, dedup, difficulty, s1, b1, elapsed_ms, k + 1);
                match rest {
                    Ok(more) => (Ok(picks + more), s2, b2),
                    Err(e) => (Err(e), s2, b2),
                }
            },
        }
    }
}

/// The candidates of a budgeted selection as `budgeted_selection` states them.
pub open spec fn chosen_view(r: Result<Vec<PoolEntry>, GenerationError>) -> Result<Seq<PoolEntry>, GenerationError> {
    match r {
        Ok(v) => Ok(v@),
        Err(e) => Err(e),
    }
}

fn select_with_budget(
    pool: &Vec<PoolEntry>,
    dedup: SelectionDedup,
    count: usize,
    difficulty: u8,
    rng: &mut DeterministicRng,
    budget: &mut GenerationBudget,
    elapsed_ms: u64,
) -> (r: Result<Vec<PoolEntry>, GenerationError>)
    requires
        1 <= difficulty <= 4,
        count <= usize::MAX - 4,
    ensures
        (chosen_view(r), final(rng)@, *final(budget)) == budgeted_selection(
            pool@,
            dedup,
            count as nat,
            difficulty,
            old(rng)@,
            *old(budget),
            elapsed_ms,
        ),
{
    match select_entries(pool, dedup, count, difficulty, rng) {
        Err(e) => Err(GenerationError::InvalidSampling(e)),
        Ok(picks) => {
            let draws = if difficulty == 4 {
                count
            } else {
                count + 4
            };
            match spend_attempts_exec(budget, elapsed_ms, draws) {
                Err(e) => Err(e),
                Ok(()) => Ok(picks),
            }
        },
    }
}

fn select_layers_with_budget(
    pool: &Vec<PoolEntry>,
    layers: &SamplingLayers,
    problem_count: usize,
    dedup: SelectionDedup,
    difficulty: u8,
    rng: &mut DeterministicRng,
    budget: &mut GenerationBudget,
    elapsed_ms: u64,
) -> (r: Result<Vec<PoolEntry>, GenerationError>)
    requires
        1 <= difficulty <= 4,
        problem_count <= usize::MAX - 4,
        layers@.len() > 0,
        minimum_total(layers@) <= problem_count,
        weight_total(layers@) <= u64::MAX,
    ensures
        (chosen_view(r), final(rng)@, *final(budget)) == budgeted_layers_from(
            pool@,
            quota_seq(layers@, problem_count as nat),
            dedup,
            difficulty,
            old(rng)@,
            *old(budget),
            elapsed_ms,
            0,
        ),
{
    let quotas = layered_quotas(layers, problem_count);
    let ghost q = quota_seq(layers@, problem_count as nat);
    proof {
        assert(quotas@ =~= q);
        lemma_quotas_fill_worksheet(layers@, problem_count as nat);
    }
    let ghost total = budgeted_layers_from(pool@, q, dedup, difficulty, old(rng)@, *old(budget), elapsed_ms, 0);
    let mut selected: Vec<PoolEntry> = Vec::new();
    let mut k: usize = 0;
    while k < quotas.len()
        invariant
            quotas@ == q,
            q == quota_seq(layers@, problem_count as nat),
            total == budgeted_layers_from(pool@, q, dedup, difficulty, old(rng)@, *old(budget), elapsed_ms, 0),
            q.len() == layers@.len(),
            k <= q.len(),
            1 <= difficulty <= 4,
            problem_count <= usize::MAX - 4,
            quota_sum(layers@, problem_count as nat, layers@.len() as int) == problem_count,
            forall|i: int| 0 <= i < q.len() ==> #[trigger] q[i] == layer_quota(layers@, problem_count as nat, i),
            ({
                let rest = budgeted_layers_from(pool@, q, dedup, difficulty, rng@, *budget, elapsed_ms, k as nat);
                (match rest.0 {
                    Ok(more) => Ok(selected@ + more),
                    Err(e) => Err(e),
                }, rest.1, rest.2) == total
            }),
        decreases q.len() - k,
    {
        let quota = quotas[k];
        if quota != 0 {
            proof {
                lemma_quota_le_sum(layers@, problem_count as nat, k as int, layers@.len() as int);
            }
            let layer_pool = in_layer_exec(pool, k);
            let ghost before = selected@;
            let ghost state_before = rng@;
            let ghost budget_before = *budget;
            match select_with_budget(&layer_pool, dedup, quota, difficulty, rng, budget, elapsed_ms) {
                Ok(picks) => {
                    proof {
                        let rest = budgeted_layers_from(pool@, q, dedup, difficulty, rng@, *budget, elapsed_ms, (k + 1) as nat);
                        match rest.0 {
                            Ok(more) => {
                                assert(before + (picks@ + more) =~= (before + picks@) + more);
                            },
                            Err(e) => {},
                        }
                    }
                    let mut picks = picks;
                    selected.append(&mut picks);
                },
                Err(e) => {
                    proof {
                        assert(budgeted_layers_from(pool@, q, dedup, difficulty, state_before, budget_before, elapsed_ms, k as nat) == (
                            Err::<Seq<PoolEntry>, GenerationError>(e),
                            rng@,
                            *budget,
                        ));
                    }
                    return Err(e);
                },
            }
        }
        k += 1;
    }
    proof {
        assert(selected@ + Seq::<PoolEntry>::empty() =~= selected@);
    }
    Ok(selected)
}

/// The problems of a worksheet numbered from one in presentation order.
pub open spec fn numbered(s: Seq<PoolEntry>) -> Seq<(u32, PoolEntry)> {
    Seq::new(s.len(), |i: int| ((i + 1) as u32, s[i]))
}

/// The layers of a strategy, if it has any.
pub open spec fn layers_view(layers: Option<&SamplingLayers>) -> Option<Seq<SamplingLayerSpec>> {
    match layers {
        Some(l) => Some(l@),
        None => None,
    }
}

/// The checks a sampled pool passes before any draw: twice as many
/// distinct keys as problems and, for a layered strategy, enough in each
/// layer. A pool from a finite source or built layer by layer is not
/// checked.
pub open spec fn pool_checks(
    pool: Seq<PoolEntry>,
    layers: Option<Seq<SamplingLayerSpec>>,
    sampled: bool,
    problem_count: nat,
    difficulty: u8,
) -> Result<(), SamplingError> {
    if !sampled {
        Ok(())
    } else {
        match pool_diversity(pool, problem_count) {
            Err(e) => Err(e),
            Ok(_) => match layers {
                Some(l) => layer_capacity_from(pool, quota_seq(l, problem_count), difficulty, 0),
                None => Ok(()),
            },
        }
    }
}

/// A worksheet from a finished pool: the pool checks, the selection
/// (layer by layer for a layered strategy) spending one attempt per draw,
/// the presentation order, a last look at the watchdog, and the problems
/// numbered from one. The numbered problems or the error, the generator
/// state and the budget after.
pub open spec fn worksheet_finish(
    pool: Seq<PoolEntry>,
    layers: Option<Seq<SamplingLayerSpec>>,
    sampled: bool,
    problem_count: nat,
    dedup: SelectionDedup,
    difficulty: u8,
    state: u64,
    budget: GenerationBudget,
    elapsed_ms: u64,
) -> (Result<Seq<(u32, PoolEntry)>, GenerationError>, u64, GenerationBudget) {
    match pool_checks(pool, layers, sampled, problem_count, difficulty) {
        Err(e) => (Err(GenerationError::InvalidSampling(e)), state, budget),
        Ok(_) => {
            let (chosen, s1, b1) = match layers {
                Some(l) => budgeted_layers_from(
                    pool,
                    quota_seq(l, problem_count),
                    dedup,
                    difficulty,
                    state,
                    budget,
                    elapsed_ms,
                    0,
                ),
                None => budgeted_selection(pool, dedup, problem_count, difficulty, state, budget, elapsed_ms),
            };
            match chosen {
                Err(e) => (Err(e), s1, b1),
                Ok(picks) => {
                    let (ordered, s2) = presentation(s1, picks, difficulty);
                    if timed_out(elapsed_ms, b1.timeout_ms) {
                        (Err(GenerationError::Timeout { timeout_ms: b1.timeout_ms }), s2, b1)
                    } else {
                        (Ok(numbered(ordered)), s2, b1)
                    }
                },
            }
        },
    }
}

/// The numbered problems as `worksheet_finish` states them.
pub open spec fn numbered_view(r: Result<Vec<(u32, PoolEntry)>, GenerationError>) -> Result<
    Seq<(u32, PoolEntry)>,
    GenerationError,
> {
    match r {
        Ok(v) => Ok(v@),
        Err(e) => Err(e),
    }
}

fn number_problems(s: &Vec<PoolEntry>) -> (r: Vec<(u32, PoolEntry)>)
    ensures
        r@ == numbered(s@),
{
    let mut out: Vec<(u32, PoolEntry)> = Vec::new();
    let mut k: usize = 0;
    while k < s.len()
        invariant
            k <= s@.len(),
            out@ == numbered(s@.take(k as int)),
        decreases s@.len() - k,
    {
        out.push((((k + 1) as u64) as u32, s[k]));
        proof {
            assert(out@ =~= numbered(s@.take(k + 1)));
        }
        k += 1;
    }
    proof {
        assert(s@.take(s@.len() as int) =~= s@);
    }
    out
}

/// Turns a finished candidate pool into a worksheet's numbered problems
/// (see `worksheet_finish`), `elapsed_ms` after the run started.
pub fn finish_worksheet(
    pool: &Vec<PoolEntry>,
    layers: Option<&SamplingLayers>,
    sampled: bool,
    problem_count: usize,
    dedup: SelectionDedup,
    difficulty: u8,
    rng: &mut DeterministicRng,
    budget: &mut GenerationBudget,
    elapsed_ms: u64,
) -> (r: Result<Vec<(u32, PoolEntry)>, GenerationError>)
    requires
        1 <= difficulty <= 4,
        2 * problem_count <= usize::MAX,
        problem_count <= usize::MAX - 4,
        match layers {
            Some(l) => l@.len() > 0 && minimum_total(l@) <= problem_count && weight_total(l@) <= u64::MAX,
            None => true,
        },
    ensures
        (numbered_view(r), final(rng)@, *final(budget)) == worksheet_finish(
            pool@,
            layers_view(layers),
            sampled,
            problem_count as nat,
            dedup,
            difficulty,
            old(rng)@,
            *old(budget),
            elapsed_ms,
        ),
{
    if sampled {
        match ensure_pool_diversity(pool, problem_count) {
            Err(e) => {
                return Err(GenerationError::InvalidSampling(e));
            },
            Ok(()) => {},
        }
        match layers {
            Some(l) => match ensure_layered_pool_capacity(pool, l, problem_count, difficulty) {
                Err(e) => {
                    return Err(GenerationError::InvalidSampling(e));
                },
                Ok(()) => {},
            },
            None => {},
        }
    }
    let chosen = match layers {
        Some(l) => select_layers_with_budget(pool, l, problem_count, dedup, difficulty, rng, budget, elapsed_ms),
        None => select_with_budget(pool, dedup, problem_count, difficulty, rng, budget, elapsed_ms),
    };
    let picks = match chosen {
        Err(e) => {
            return Err(e);
        },
        Ok(p) => p,
    };
    let ordered = arrange_worksheet(&picks, difficulty, rng);
    if elapsed_ms >= budget.timeout_ms {
        return Err(GenerationError::timeout_millis(budget.timeout_ms));
    }
    Ok(number_problems(&ordered))
}

} // verus!
