use drill_core::error::SamplingError;
use drill_core::rng::DeterministicRng;
use drill_core::sampling::{
    arrange_worksheet, ensure_layered_pool_capacity, ensure_pool_diversity, layered_quotas, select_candidates,
    select_layered_candidates, PoolEntry, SamplingLayers, SelectionDedup,
};
use drill_core::theme::SamplingLayerSpec;

fn layer(weight: u32, minimum: usize) -> SamplingLayerSpec {
    SamplingLayerSpec { weight, minimum }
}

#[test]
fn layers_need_at_least_one_layer_and_minimums_that_fit() {
    assert_eq!(SamplingLayers::new(vec![], 10).err(), Some(SamplingError::EmptyLayers));
    assert_eq!(
        SamplingLayers::new(vec![layer(1, 6), layer(1, 5)], 10).err(),
        Some(SamplingError::LayerMinimumExceedsWorksheet { minimum_total: 11, problem_count: 10 })
    );
    let layers = SamplingLayers::new(vec![layer(1, 5), layer(1, 5)], 10).unwrap();
    assert_eq!(layers.specs().len(), 2);
}

#[test]
fn layer_index_is_checked_against_the_layer_count() {
    let layers = SamplingLayers::new(vec![layer(1, 0), layer(2, 0)], 10).unwrap();
    assert_eq!(layers.index(1).unwrap().value(), 1);
    assert_eq!(layers.index(2).err(), Some(SamplingError::LayerOutOfRange { index: 2, layer_count: 2 }));
}

#[test]
fn weighted_quotas_give_leftovers_to_the_largest_fractions() {
    let layers = SamplingLayers::new(vec![layer(1, 0), layer(1, 0), layer(2, 0)], 10).unwrap();
    assert_eq!(layered_quotas(&layers, 10), vec![3, 2, 5]);
}

#[test]
fn quotas_start_from_each_minimum() {
    let layers = SamplingLayers::new(vec![layer(1, 4), layer(3, 2)], 10).unwrap();
    assert_eq!(layered_quotas(&layers, 10), vec![5, 5]);
    assert_eq!(layered_quotas(&layers, 6), vec![4, 2]);
}

#[test]
fn weightless_layers_share_the_rest_in_turn() {
    let layers = SamplingLayers::new(vec![layer(0, 1), layer(0, 1)], 5).unwrap();
    assert_eq!(layered_quotas(&layers, 5), vec![3, 2]);
}

#[test]
fn quotas_always_fill_the_worksheet() {
    let layers = SamplingLayers::new(vec![layer(3, 1), layer(5, 0), layer(7, 2), layer(1, 0)], 20).unwrap();
    for count in 3..60 {
        let quotas = layered_quotas(&layers, count);
        assert_eq!(quotas.iter().sum::<usize>(), count);
    }
}

fn pool_of(keys: &[u64]) -> Vec<PoolEntry> {
    keys.iter().enumerate().map(|(index, key)| PoolEntry { index, key: *key, rank: index, layer: 0 }).collect()
}

#[test]
fn selection_needs_enough_distinct_keys() {
    let pool = pool_of(&[1, 1, 2, 2, 3]);
    let mut rng = DeterministicRng::from_seed("seed");
    let before = rng.clone().next_u64();
    assert_eq!(
        select_candidates(&pool, SelectionDedup::AllowDuplicates, 4, 4, &mut rng),
        Err(SamplingError::InsufficientDistinctCandidates { required: 4, available: 3 })
    );
    assert_eq!(
        select_candidates(&pool, SelectionDedup::AllowDuplicates, 2, 1, &mut rng),
        Err(SamplingError::InsufficientDistinctCandidates { required: 6, available: 3 })
    );
    assert_eq!(rng.next_u64(), before);
}

#[test]
fn random_selection_takes_distinct_keys() {
    let pool = pool_of(&[7, 7, 8, 9, 9, 10, 11]);
    let mut rng = DeterministicRng::from_seed("Ab3Z");
    let picked = select_candidates(&pool, SelectionDedup::AllowDuplicates, 5, 4, &mut rng).unwrap();
    assert_eq!(picked.len(), 5);
    let mut keys: Vec<u64> = picked.iter().map(|index| pool[*index].key).collect();
    keys.sort();
    assert_eq!(keys, vec![7, 8, 9, 10, 11]);
    let first_of_key: Vec<usize> = vec![0, 2, 3, 5, 6];
    assert!(picked.iter().all(|index| first_of_key.contains(index)));
}

#[test]
fn selection_is_reproducible_from_the_seed() {
    let pool = pool_of(&[1, 2, 3, 4, 5, 6, 7, 8, 9, 10, 11, 12]);
    let mut a = DeterministicRng::from_seed("same");
    let mut b = DeterministicRng::from_seed("same");
    let first = select_candidates(&pool, SelectionDedup::Deduplicate, 5, 2, &mut a).unwrap();
    let second = select_candidates(&pool, SelectionDedup::Deduplicate, 5, 2, &mut b).unwrap();
    assert_eq!(first, second);
    assert_eq!(a.next_u64(), b.next_u64());
}

#[test]
fn ranked_selection_keeps_the_middle_in_effort_order() {
    let pool = pool_of(&[1, 2, 3, 4, 5, 6]);
    for difficulty in 1..=3u8 {
        let mut rng = DeterministicRng::from_seed("rank");
        let picked = select_candidates(&pool, SelectionDedup::Deduplicate, 2, difficulty, &mut rng).unwrap();
        assert_eq!(picked.len(), 2);
        assert!(picked[0] < picked[1]);
        assert!(picked.iter().all(|index| *index < pool.len()));
    }
    let mut rng = DeterministicRng::from_seed("rank");
    let exact = select_candidates(&pool, SelectionDedup::Deduplicate, 2, 2, &mut rng).unwrap();
    assert_eq!(exact, vec![2, 3]);
}

#[test]
fn easy_sheets_go_up_in_effort_and_hard_ones_are_shuffled() {
    let chosen = vec![
        PoolEntry { index: 4, key: 40, rank: 9, layer: 0 },
        PoolEntry { index: 1, key: 10, rank: 2, layer: 0 },
        PoolEntry { index: 3, key: 30, rank: 5, layer: 0 },
    ];
    let mut rng = DeterministicRng::from_seed("order");
    let before = rng.clone().next_u64();
    let easy = arrange_worksheet(&chosen, 1, &mut rng);
    assert_eq!(easy.iter().map(|e| e.rank).collect::<Vec<_>>(), vec![2, 5, 9]);
    assert_eq!(rng.clone().next_u64(), before);
    let hard = arrange_worksheet(&chosen, 3, &mut rng);
    let mut ranks: Vec<usize> = hard.iter().map(|e| e.rank).collect();
    ranks.sort();
    assert_eq!(ranks, vec![2, 5, 9]);
    assert_ne!(rng.next_u64(), before);
}

#[test]
fn layered_selection_fills_each_layer_from_its_own_candidates() {
    let layers = SamplingLayers::new(vec![layer(1, 1), layer(1, 1)], 4).unwrap();
    assert_eq!(layered_quotas(&layers, 4), vec![2, 2]);
    let pool: Vec<PoolEntry> = (0..10)
        .map(|index| PoolEntry { index, key: index as u64, rank: index, layer: index % 2 })
        .collect();
    let mut rng = DeterministicRng::from_seed("layers");
    let picked = select_layered_candidates(&pool, &layers, 4, SelectionDedup::Deduplicate, 4, &mut rng).unwrap();
    assert_eq!(picked.len(), 4);
    assert_eq!(pool[picked[0]].layer, 0);
    assert_eq!(pool[picked[1]].layer, 0);
    assert_eq!(pool[picked[2]].layer, 1);
    assert_eq!(pool[picked[3]].layer, 1);

    let mut rng = DeterministicRng::from_seed("layers");
    assert_eq!(
        select_layered_candidates(&pool, &layers, 4, SelectionDedup::Deduplicate, 2, &mut rng),
        Err(SamplingError::InsufficientDistinctCandidates { required: 6, available: 5 })
    );
}

#[test]
fn pools_are_checked_for_diversity_and_layer_capacity() {
    let pool = pool_of(&[1, 1, 2, 3, 4, 5]);
    assert_eq!(ensure_pool_diversity(&pool, 2), Ok(()));
    assert_eq!(
        ensure_pool_diversity(&pool, 3),
        Err(SamplingError::InsufficientDistinctCandidates { required: 6, available: 5 })
    );

    let layers = SamplingLayers::new(vec![layer(1, 1), layer(1, 1)], 2).unwrap();
    let layered: Vec<PoolEntry> = (0..8)
        .map(|index| PoolEntry { index, key: index as u64, rank: index, layer: if index < 5 { 0 } else { 1 } })
        .collect();
    assert_eq!(ensure_layered_pool_capacity(&layered, &layers, 2, 4), Ok(()));
    assert_eq!(
        ensure_layered_pool_capacity(&layered, &layers, 2, 1),
        Err(SamplingError::InsufficientDistinctCandidates { required: 5, available: 3 })
    );
}
