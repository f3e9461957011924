use drill_core::config::GenerationConfig;
use drill_core::error::{GenerationError, SamplingError};
use drill_core::generation::{assign_ranks, finish_worksheet, PoolAction, PoolBuild, PoolEvent};
use drill_core::rng::DeterministicRng;
use drill_core::sampling::{PoolEntry, SamplingLayers, SelectionDedup};
use drill_core::theme::SamplingLayerSpec;
use std::collections::HashSet;
use std::time::Duration;

fn entries(keys: &[u64]) -> Vec<PoolEntry> {
    keys.iter().enumerate().map(|(index, key)| PoolEntry { index, key: *key, rank: index, layer: 0 }).collect()
}

#[test]
fn timeout_and_attempt_limit_are_distinct() {
    let config = GenerationConfig::default().with_timeout(Duration::from_millis(5));
    let mut pool = PoolBuild::new(vec![2], false, &config);
    let timeout = match pool.step(PoolEvent::Start, 10) {
        PoolAction::Fail(error) => error,
        other => panic!("expected a failure, got {other:?}"),
    };
    assert!(matches!(timeout, GenerationError::Timeout { .. }));
    assert_eq!(timeout.code(), "generation_timeout");

    let config = GenerationConfig::default().with_timeout(Duration::from_millis(1_000)).with_max_attempts(1);
    let mut pool = PoolBuild::new(vec![2], false, &config);
    assert_eq!(pool.step(PoolEvent::Start, 0), PoolAction::Draw { layer: 0, ordinal: 1, new_slot: true });
    let limit = match pool.step(PoolEvent::NoCandidate, 0) {
        PoolAction::Fail(error) => error,
        other => panic!("expected a failure, got {other:?}"),
    };
    assert!(matches!(limit, GenerationError::AttemptLimit { attempts: 1, max_attempts: 1 }));
    assert_eq!(limit.code(), "generation_attempt_limit");
}

#[test]
fn pool_loop_retries_until_every_slot_is_filled() {
    let config = GenerationConfig::default();
    let mut pool = PoolBuild::new(vec![2, 0, 1], false, &config);
    assert_eq!(pool.step(PoolEvent::Start, 0), PoolAction::Draw { layer: 0, ordinal: 1, new_slot: true });
    assert_eq!(pool.step(PoolEvent::NoCandidate, 0), PoolAction::Draw { layer: 0, ordinal: 2, new_slot: false });
    assert_eq!(pool.step(PoolEvent::Rejected, 0), PoolAction::Draw { layer: 0, ordinal: 3, new_slot: false });
    assert_eq!(
        pool.step(PoolEvent::Accepted { key: 7, layer: 0 }, 0),
        PoolAction::Draw { layer: 0, ordinal: 4, new_slot: true }
    );
    assert_eq!(
        pool.step(PoolEvent::Accepted { key: 8, layer: 0 }, 0),
        PoolAction::Draw { layer: 2, ordinal: 5, new_slot: true }
    );
    assert_eq!(pool.step(PoolEvent::Accepted { key: 9, layer: 2 }, 0), PoolAction::Done);
    let keys: Vec<u64> = pool.entries().iter().map(|e| e.key).collect();
    assert_eq!(keys, vec![7, 8, 9]);
    assert_eq!(pool.entries()[2].index, 2);
    assert_eq!(pool.budget().attempts, 5);

    let ranked = assign_ranks(pool.entries(), &vec![2, 0, 1]);
    assert_eq!(ranked.iter().map(|e| e.rank).collect::<Vec<_>>(), vec![2, 0, 1]);
}

#[test]
fn finite_sources_are_walked_once_and_contract_violations_stop_the_run() {
    let config = GenerationConfig::default();
    let mut pool = PoolBuild::new(vec![2], true, &config);
    assert_eq!(pool.step(PoolEvent::Start, 0), PoolAction::Draw { layer: 0, ordinal: 1, new_slot: true });
    assert_eq!(pool.step(PoolEvent::Rejected, 0), PoolAction::Draw { layer: 0, ordinal: 2, new_slot: true });
    assert_eq!(pool.step(PoolEvent::Accepted { key: 1, layer: 0 }, 0), PoolAction::Done);
    assert_eq!(pool.entries().len(), 1);

    let mut pool = PoolBuild::new(vec![2], false, &config);
    pool.step(PoolEvent::Start, 0);
    let violation = GenerationError::InvalidGeneratedProblem { reason: "answer mismatch" };
    assert_eq!(pool.step(PoolEvent::Invalid(violation.clone()), 0), PoolAction::Fail(violation));
}

#[test]
fn insufficient_diversity_returns_typed_sampling_error() {
    let pool = entries(&[5; 40]);
    let mut rng = DeterministicRng::from_seed("Ab3Z");
    let mut budget = drill_core::config::GenerationBudget::new(&GenerationConfig::default().with_max_attempts(1_000));
    let error = finish_worksheet(&pool, None, true, 20, SelectionDedup::Deduplicate, 2, &mut rng, &mut budget, 0)
        .unwrap_err();
    assert_eq!(
        error,
        GenerationError::InvalidSampling(SamplingError::InsufficientDistinctCandidates { required: 40, available: 1 })
    );
}

#[test]
fn finished_worksheets_are_numbered_and_reproducible() {
    let keys: Vec<u64> = (0..16).collect();
    let pool = entries(&keys);
    let config = GenerationConfig::default();
    let run = |seed: &str, difficulty: u8| {
        let mut rng = DeterministicRng::from_seed(seed);
        let mut budget = drill_core::config::GenerationBudget::new(&config);
        let sheet = finish_worksheet(&pool, None, true, 4, SelectionDedup::Deduplicate, difficulty, &mut rng, &mut budget, 0)
            .unwrap();
        (sheet, budget.attempts)
    };
    let (sheet, attempts) = run("Ab3Z", 2);
    assert_eq!(sheet.iter().map(|(n, _)| *n).collect::<Vec<_>>(), vec![1, 2, 3, 4]);
    assert!(sheet.windows(2).all(|w| w[0].1.rank <= w[1].1.rank));
    assert_eq!(attempts, 8);
    assert_eq!(run("Ab3Z", 2), run("Ab3Z", 2));
    let (random, attempts) = run("Ab3Z", 4);
    assert_eq!(attempts, 4);
    let distinct: HashSet<u64> = random.iter().map(|(_, e)| e.key).collect();
    assert_eq!(distinct.len(), 4);
}

#[test]
fn finishing_spends_the_budget_and_honours_the_watchdog() {
    let keys: Vec<u64> = (0..16).collect();
    let pool = entries(&keys);
    let mut rng = DeterministicRng::from_seed("Ab3Z");
    let mut budget = drill_core::config::GenerationBudget::new(&GenerationConfig::default().with_max_attempts(3));
    assert_eq!(
        finish_worksheet(&pool, None, true, 4, SelectionDedup::Deduplicate, 4, &mut rng, &mut budget, 0),
        Err(GenerationError::AttemptLimit { attempts: 3, max_attempts: 3 })
    );
    let mut budget = drill_core::config::GenerationBudget::new(
        &GenerationConfig::default().with_timeout(Duration::from_millis(10)),
    );
    assert_eq!(
        finish_worksheet(&pool, None, true, 4, SelectionDedup::Deduplicate, 4, &mut rng, &mut budget, 20),
        Err(GenerationError::Timeout { timeout_ms: 10 })
    );
}

#[test]
fn layered_worksheets_check_each_layer() {
    let layers = SamplingLayers::new(vec![SamplingLayerSpec { weight: 1, minimum: 1 }, SamplingLayerSpec { weight: 1, minimum: 1 }], 2)
        .unwrap();
    let pool: Vec<PoolEntry> = (0..8)
        .map(|index| PoolEntry { index, key: index as u64, rank: index, layer: if index < 6 { 0 } else { 1 } })
        .collect();
    let mut rng = DeterministicRng::from_seed("layers");
    let mut budget = drill_core::config::GenerationBudget::new(&GenerationConfig::default());
    assert_eq!(
        finish_worksheet(&pool, Some(&layers), true, 2, SelectionDedup::Deduplicate, 4, &mut rng, &mut budget, 0)
            .map(|sheet| sheet.len()),
        Ok(2)
    );
    assert_eq!(
        finish_worksheet(&pool, Some(&layers), true, 2, SelectionDedup::Deduplicate, 1, &mut rng, &mut budget, 0),
        Err(GenerationError::InvalidSampling(SamplingError::InsufficientDistinctCandidates {
            required: 5,
            available: 2
        }))
    );
}

#[test]
fn ordered_pairs_are_directional() {
    let observed = (1..=128).any(|seed| {
        let mut rng = DeterministicRng::from_seed(&seed.to_string());
        let set: HashSet<(u8, u8)> = (0..20).map(|_| rng.next_ordered_pair()).collect();
        set.iter().any(|(left, right)| left != right && set.contains(&(*right, *left)))
    });
    assert!(observed);
}
