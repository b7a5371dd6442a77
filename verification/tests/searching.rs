use xtr_warp::search::gather::gather_shard_cells;
use xtr_warp::search::scorer::{
    argmin, pool_threads, ProbedQuery, ScorerError, ShardedWARPScorer, WARPScorer,
};
use xtr_warp::search::tombstones::Tombstones;
use xtr_warp::search::{check_query_shape, QueryShapeError, Searcher, ShardedQuery, ShardedSearcherImpl};
use xtr_warp::utils::types::{
    compute_balanced_boundaries, DecompressedCentroidsOutput, Device, Kind, SearchConfig,
    SearchResult, ShardCellOutput, ShardConfig,
};

fn config(device: &str, dtype: &str) -> SearchConfig<i64> {
    SearchConfig::new(
        2,
        device.to_string(),
        Some(dtype.to_string()),
        Some(2),
        None,
        None,
        Some(3),
        Some(0),
        None,
        None,
        None,
    )
}

fn probed() -> ProbedQuery<i64> {
    ProbedQuery {
        cells: DecompressedCentroidsOutput {
            capacities: vec![4, 4, 4, 4],
            sizes: vec![2, 1, 0, 3],
            passage_ids: vec![1, 2, 1, 1, 5, 9],
            scores: vec![10, 20, 30, 7, 50, 60],
            offsets: vec![0, 2, 3, 3, 6],
        },
        mse_estimate: vec![3, 4],
    }
}

fn shards() -> Vec<ShardConfig> {
    vec![
        ShardConfig { shard_id: 0, num_shards: 2, centroid_start: 0, centroid_end: 3 },
        ShardConfig { shard_id: 1, num_shards: 2, centroid_start: 3, centroid_end: 5 },
    ]
}

/// The cells of `probed`, of centroids 4, 0, 3 and 2, as two shards give them.
fn shard_outputs() -> Vec<ShardCellOutput<i64>> {
    vec![
        ShardCellOutput {
            global_cell_indices: vec![1, 3],
            passage_ids: vec![1, 1, 5, 9],
            scores: vec![30, 7, 50, 60],
            capacities: vec![4, 4],
            sizes: vec![1, 3],
        },
        ShardCellOutput {
            global_cell_indices: vec![0, 2],
            passage_ids: vec![1, 2],
            scores: vec![10, 20],
            capacities: vec![4, 4],
            sizes: vec![2, 0],
        },
    ]
}

#[test]
fn a_scorer_resolves_its_configuration() {
    let s = WARPScorer::new(config("CUDA:1", "Float16")).ok().unwrap();
    assert_eq!(s.device, Device::Cuda(1));
    assert_eq!(s.dtype, Kind::Half);
    assert_eq!(s.merger.config.max_candidates, 256);
    assert_eq!(s.merger.config.num_threads, 0);
    assert_eq!(s.num_threads, 1);
    assert_eq!(s.batch_size, 3);
}

#[test]
fn a_scorer_without_threads_asks_the_pool() {
    let mut c = config("cpu", "float32");
    c.num_threads = None;
    c.max_candidates = Some(7);
    let s = WARPScorer::new(c).ok().unwrap();
    assert!(s.num_threads >= 1);
    assert_eq!(s.num_threads, rayon::current_num_threads());
    assert_eq!(s.merger.config.num_threads, 1);
    assert_eq!(s.merger.config.max_candidates, 7);
}

#[test]
fn a_scorer_needs_a_device_and_a_dtype() {
    assert!(matches!(
        WARPScorer::new(config("tpu", "float8")).err(),
        Some(ScorerError::Device(_))
    ));
    assert!(matches!(
        WARPScorer::new(config("cpu", "float8")).err(),
        Some(ScorerError::Dtype(_))
    ));
    assert!(matches!(
        ShardedWARPScorer::new(shards(), 5, config("cuda:x", "float32")).err(),
        Some(ScorerError::Device(_))
    ));
}

#[test]
fn pools_have_at_least_one_thread() {
    assert_eq!(pool_threads(Some(0), 8), 1);
    assert_eq!(pool_threads(Some(3), 8), 3);
    assert_eq!(pool_threads(None, 8), 8);
    assert_eq!(pool_threads(None, 0), 1);
}

#[test]
fn queries_are_ranked_in_order() {
    let searcher = Searcher::new(config("cpu", "float32")).ok().unwrap();
    let results = searcher.search(&vec![probed(), probed()]);
    assert_eq!(results.len(), 2);
    assert_eq!(results[0].query_id, 1);
    assert_eq!(results[1].query_id, 2);
    for r in &results {
        assert_eq!(r.passage_ids, vec![9, 5, 1, 2]);
        assert_eq!(r.scores, vec![63, 53, 37, 24]);
    }
    assert_eq!(searcher.scorer.process_query(6, &probed()).query_id, 7);
}

#[test]
fn a_query_ranks_as_it_does_alone() {
    let mut other = probed();
    other.cells.scores = vec![1, 2, 3, 4, 5, 6];
    let all = Searcher::new(config("cpu", "float32")).ok().unwrap();
    let results = all.search(&vec![other, probed()]);
    let mut alone = config("cpu", "float32");
    alone.num_threads = Some(7);
    alone.batch_size = 1;
    let alone = Searcher::new(alone).ok().unwrap();
    assert_eq!((all.scorer.num_threads, alone.scorer.num_threads), (1, 7));
    let single = alone.search(&vec![probed()]);
    assert_eq!(results[1].passage_ids, single[0].passage_ids);
    assert_eq!(results[1].scores, single[0].scores);
    assert_eq!((results[1].query_id, single[0].query_id), (2, 1));
}

#[test]
fn queries_are_taken_in_batches() {
    let s = WARPScorer::new(config("cpu", "float32")).ok().unwrap();
    assert_eq!(s.query_batches(7), vec![(0, 3), (3, 3), (6, 1)]);
    assert_eq!(s.query_batches(6), vec![(0, 3), (3, 3)]);
    assert_eq!(s.query_batches(2), vec![(0, 2)]);
    assert_eq!(s.query_batches(0), vec![]);
}

#[test]
fn a_shard_takes_the_cells_of_its_centroids() {
    let s = ShardedWARPScorer::new(shards(), 5, config("cpu", "float32")).ok().unwrap();
    let ids = vec![4, 0, 3, 2];
    let scores = vec![40, 41, 42, 43];
    let local = s.local_cells(&shards()[0], &ids, &scores);
    assert_eq!(local.cell_indices, vec![1, 3]);
    assert_eq!(local.centroid_ids, vec![0, 2]);
    assert_eq!(local.centroid_scores, vec![41, 43]);
    assert_eq!(local.token_indices, vec![0, 1]);
    let local = s.local_cells(&shards()[1], &ids, &scores);
    assert_eq!(local.cell_indices, vec![0, 2]);
    assert_eq!(local.token_indices, vec![0, 1]);
}

#[test]
fn global_sizes_join_the_shards() {
    let s = ShardedWARPScorer::new(shards(), 5, config("cpu", "float32")).ok().unwrap();
    let (sizes, kdummy) = s.build_global_sizes(&vec![vec![5, 2, 9], vec![2, 7]]);
    assert_eq!(sizes, vec![5, 2, 9, 2, 7]);
    assert_eq!(kdummy, 1);
}

#[test]
fn the_first_smallest_is_found() {
    assert_eq!(argmin(&vec![4, 1, 3, 1]), 1);
    assert_eq!(argmin(&vec![4]), 0);
}

#[test]
fn gathered_cells_are_in_global_order() {
    let all = gather_shard_cells(shard_outputs(), 4);
    let whole = probed().cells;
    assert_eq!(all.capacities, whole.capacities);
    assert_eq!(all.sizes, whole.sizes);
    assert_eq!(all.passage_ids, whole.passage_ids);
    assert_eq!(all.scores, whole.scores);
    assert_eq!(all.offsets, whole.offsets);
}

#[test]
fn shards_may_answer_in_any_order() {
    let mut turned = shard_outputs();
    turned.reverse();
    let (a, b) = (gather_shard_cells(shard_outputs(), 4), gather_shard_cells(turned, 4));
    assert_eq!(a.capacities, b.capacities);
    assert_eq!(a.sizes, b.sizes);
    assert_eq!(a.passage_ids, b.passage_ids);
    assert_eq!(a.scores, b.scores);
    assert_eq!(a.offsets, b.offsets);
    // Cell 3 is the second one of the first shard.
    let (start, end) = (a.offsets[3] as usize, a.offsets[4] as usize);
    assert_eq!(a.passage_ids[start..end], shard_outputs()[0].passage_ids[1..4]);
    assert_eq!(a.scores[start..end], shard_outputs()[0].scores[1..4]);
}

#[test]
fn cells_of_no_shard_are_empty() {
    let all = gather_shard_cells(Vec::<ShardCellOutput<i64>>::new(), 2);
    assert_eq!(all.capacities, vec![0, 0]);
    assert_eq!(all.sizes, vec![0, 0]);
    assert_eq!(all.offsets, vec![0, 0, 0]);
    assert!(all.passage_ids.is_empty());
}

#[test]
fn a_sharded_search_gives_what_a_whole_search_gives() {
    for device in ["cpu", "cuda:0"] {
        let whole = Searcher::new(config(device, "float32")).ok().unwrap();
        let expected = whole.search(&vec![probed()]);
        let sharded = ShardedSearcherImpl::new(shards(), 5, config(device, "float32")).ok().unwrap();
        let query = ShardedQuery {
            outputs: shard_outputs(),
            num_cells: 4,
            mse_estimate: vec![3, 4],
        };
        let second = ShardedQuery {
            outputs: shard_outputs(),
            num_cells: 4,
            mse_estimate: vec![0, 0],
        };
        let results = sharded.search(vec![query, second]);
        assert_eq!(results[0].passage_ids, expected[0].passage_ids);
        assert_eq!(results[0].scores, expected[0].scores);
        assert_eq!(results[0].query_id, 1);
        assert_eq!(results[1].query_id, 2);
        assert_eq!(results[1].passage_ids, vec![9, 5, 1, 2]);
        assert_eq!(results[1].scores, vec![60, 50, 37, 20]);
    }
}

#[test]
fn a_searcher_can_share_its_shards() {
    let s = ShardedSearcherImpl::new_ref(&shards(), 5, config("cpu", "float32")).ok().unwrap();
    assert_eq!(s.scorer.shard_configs, shards());
    assert_eq!(s.scorer.num_centroids, 5);
}

#[test]
fn boundaries_balance_the_embeddings() {
    assert_eq!(compute_balanced_boundaries(&vec![1, 1, 1, 1], 2), vec![0, 2, 4]);
    assert_eq!(compute_balanced_boundaries(&vec![10, 1, 1, 1, 1], 2), vec![0, 1, 5]);
    assert_eq!(compute_balanced_boundaries(&vec![1, 1, 1, 1, 10], 3), vec![0, 5, 5, 5]);
    assert_eq!(compute_balanced_boundaries(&vec![3, 3, 3, 3, 3], 3), vec![0, 2, 4, 5]);
    assert_eq!(compute_balanced_boundaries(&vec![7, 7, 7], 1), vec![0, 3]);
}

#[test]
fn more_shards_than_centroids_leave_some_empty() {
    assert_eq!(compute_balanced_boundaries(&vec![5, 6], 4), vec![0, 1, 2, 2, 2]);
    assert_eq!(compute_balanced_boundaries(&vec![5, 6], 2), vec![0, 1, 2]);
    assert_eq!(compute_balanced_boundaries(&vec![], 2), vec![0, 0, 0]);
}

#[test]
fn empty_centroids_are_cut_one_by_one() {
    assert_eq!(compute_balanced_boundaries(&vec![0, 0, 0, 0], 3), vec![0, 1, 2, 4]);
}

fn result() -> SearchResult<i64> {
    SearchResult { passage_ids: vec![9, 5, 1, 2], scores: vec![63, 53, 37, 24], query_id: 1 }
}

#[test]
fn deleted_passages_are_left_out() {
    let mut t = Tombstones::new();
    t.extend(&vec![5, 77]);
    let r = t.filter_result(result(), 2);
    assert_eq!(r.passage_ids, vec![9, 1]);
    assert_eq!(r.scores, vec![63, 37]);
    assert_eq!(r.query_id, 1);
    let r = t.filter_result(result(), 10);
    assert_eq!(r.passage_ids, vec![9, 1, 2]);
}

#[test]
fn without_deletions_results_are_cut_at_k() {
    let t = Tombstones::new();
    assert!(t.is_empty());
    let r = t.filter_result(result(), 3);
    assert_eq!(r.passage_ids, vec![9, 5, 1]);
    assert_eq!(r.scores, vec![63, 53, 37]);
    let r = t.filter_result(result(), 0);
    assert!(r.passage_ids.is_empty());
}

#[test]
fn no_results_are_kept_for_a_k_of_zero() {
    let mut t = Tombstones::new();
    t.extend(&vec![5]);
    assert!(t.filter_result(result(), 0).passage_ids.is_empty());
}

#[test]
fn deletions_can_be_taken_back() {
    let mut t = Tombstones::new();
    t.extend(&vec![1, 2, 3]);
    t.remove(&vec![2, 8]);
    assert!(t.contains(1));
    assert!(!t.contains(2));
    assert!(t.contains(3));
    assert!(!t.is_empty());
    t.clear();
    assert!(t.is_empty());
}

#[test]
fn queries_have_three_dimensions() {
    assert_eq!(check_query_shape(&vec![2, 50, 128]), Ok(2));
    assert_eq!(check_query_shape(&vec![50, 128]), Err(QueryShapeError { dims: 2 }));
    assert_eq!(check_query_shape(&vec![]), Err(QueryShapeError { dims: 0 }));
}

#[test]
fn shards_hold_about_the_same() {
    let sizes: Vec<i64> = (0..100).map(|i| (i * 37 % 11) + 1).collect();
    let total: i64 = sizes.iter().sum();
    for n in 1..20usize {
        let b = compute_balanced_boundaries(&sizes, n);
        assert_eq!(b.len(), n + 1);
        assert_eq!((b[0], b[n]), (0, 100));
        for s in 0..n - 1 {
            let held: i64 = sizes[b[s]..b[s + 1]].iter().sum();
            assert!(b[s + 1] == 100 || held * n as i64 >= total);
            if b[s] + 1 < b[s + 1] {
                assert!((held - sizes[b[s + 1] - 1]) * (n as i64) < total);
            }
        }
    }
}

#[test]
fn shard_outputs_are_checked_before_they_are_gathered() {
    let s = ShardedWARPScorer::new(shards(), 5, config("cpu", "float32")).ok().unwrap();
    assert!(s.can_gather(&shard_outputs(), 4));
    assert!(!s.can_gather(&shard_outputs(), 3));
    assert!(!s.can_gather(&shard_outputs(), 5));
    let mut outputs = shard_outputs();
    outputs[0].sizes[0] = -1;
    assert!(!s.can_gather(&outputs, 4));
    let mut outputs = shard_outputs();
    outputs[1].passage_ids.pop();
    assert!(!s.can_gather(&outputs, 4));
    let mut outputs = shard_outputs();
    outputs[1].capacities.clear();
    assert!(!s.can_gather(&outputs, 4));
}
