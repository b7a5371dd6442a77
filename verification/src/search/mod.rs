//! Search: merging, scoring and loading.

pub mod agreement;
pub mod combiner;
pub mod gather;
pub mod grouping;
pub mod guarantees;
pub mod loader;
pub mod merger;
pub mod npy;
pub mod ranking;
pub mod reduction;
pub mod scorer;
pub mod scoring;
pub mod sharding;
pub mod tombstones;
pub mod uniqueness;

pub use loader::IndexLoader;
pub use merger::ResultMerger;
pub use scorer::{ShardedWARPScorer, WARPScorer};

use crate::score::Score;
use crate::utils::types::{SearchConfig, SearchResult, ShardCellOutput, ShardConfig};
use scorer::{ProbedQuery, ScorerError};
use vstd::prelude::*;

verus! {

/// Queries that are not a three-dimensional tensor.
#[derive(Debug, Clone, Copy, PartialEq, Eq, Structural)]
pub struct QueryShapeError {
    pub dims: usize,
}

/// Queries are a tensor of [batch, num_tokens, dim]: the number of queries.
pub fn check_query_shape(shape: &Vec<i64>) -> (r: Result<i64, QueryShapeError>)
    ensures
        r == (if shape@.len() == 3 {
            Ok::<i64, QueryShapeError>(shape@[0])
        } else {
            Err::<i64, QueryShapeError>(QueryShapeError { dims: shape@.len() as usize })
        }),
{
    if shape.len() != 3 {
        return Err(QueryShapeError { dims: shape.len() });
    }
    Ok(shape[0])
}

/// Main search interface combining all components
pub struct Searcher<S> {
    pub scorer: WARPScorer<S>,
}

impl<S: Score> Searcher<S> {
    /// Create a new searcher
    pub fn new(config: SearchConfig<S>) -> (r: Result<Self, ScorerError>)
        ensures
            match r {
                Ok(s) => {
                    &&& scorer::resolves(config, Ok((s.scorer.device, s.scorer.dtype)))
                    &&& s.scorer.merger.config == scorer::merger_for(config, s.scorer.device)
                    &&& s.scorer.config == config
                    &&& s.scorer.batch_size == config.batch_size
                    &&& exists|available: usize|
                        s.scorer.num_threads == #[trigger] scorer::pool_size(
                            config.num_threads,
                            available,
                        )
                },
                Err(e) => scorer::resolves(config, Err(e)),
            },
    {
        match WARPScorer::new(config) {
            Ok(scorer) => Ok(Searcher { scorer }),
            Err(e) => Err(e),
        }
    }

    /// Search for top-k passages given the probed queries
    pub fn search(&self, queries: &Vec<ProbedQuery<S>>) -> (r: Vec<SearchResult<S>>)
        requires
            forall|q: int| 0 <= q < queries@.len() ==> self.scorer.rankable(#[trigger] queries@[q]),
        ensures
            r@.len() == queries@.len(),
            forall|q: int|
                0 <= q < r@.len() ==> self.scorer.ranks(q, queries@[q], #[trigger] r@[q]),
    {
        self.scorer.rank(queries)
    }
}

/// What the shards decompressed for a query, with the estimates of its tokens.
pub struct ShardedQuery<S> {
    pub outputs: Vec<ShardCellOutput<S>>,
    pub num_cells: usize,
    pub mse_estimate: Vec<S>,
}

/// Sharded search interface distributing work across multiple devices.
pub struct ShardedSearcherImpl<S> {
    pub scorer: ShardedWARPScorer<S>,
}

impl<S: Score> ShardedSearcherImpl<S> {
    pub fn new(shard_configs: Vec<ShardConfig>, num_centroids: usize, config: SearchConfig<S>) -> (r:
        Result<Self, ScorerError>)
        ensures
            match r {
                Ok(s) => {
                    &&& scorer::resolves(config, Ok((s.scorer.coord_device, s.scorer.dtype)))
                    &&& s.scorer.merger.config == scorer::merger_for(config, s.scorer.coord_device)
                    &&& s.scorer.config == config
                    &&& s.scorer.shard_configs == shard_configs
                    &&& s.scorer.num_centroids == num_centroids
                },
                Err(e) => scorer::resolves(config, Err(e)),
            },
    {
        match ShardedWARPScorer::new(shard_configs, num_centroids, config) {
            Ok(scorer) => Ok(ShardedSearcherImpl { scorer }),
            Err(e) => Err(e),
        }
    }

    /// A searcher over the same shards for one search call with its own `config`
    /// (e.g. auto-tuned hyperparams).
    pub fn new_ref(
        shard_configs: &Vec<ShardConfig>,
        num_centroids: usize,
        config: SearchConfig<S>,
    ) -> (r: Result<Self, ScorerError>)
        ensures
            match r {
                Ok(s) => {
                    &&& scorer::resolves(config, Ok((s.scorer.coord_device, s.scorer.dtype)))
                    &&& s.scorer.merger.config == scorer::merger_for(config, s.scorer.coord_device)
                    &&& s.scorer.config == config
                    &&& s.scorer.shard_configs@ == shard_configs@
                    &&& s.scorer.num_centroids == num_centroids
                },
                Err(e) => scorer::resolves(config, Err(e)),
            },
    {
        let mut copy: Vec<ShardConfig> = Vec::new();
        let mut i: usize = 0;
        while i < shard_configs.len()
            invariant
                i <= shard_configs@.len(),
                copy@ == shard_configs@.take(i as int),
            decreases shard_configs@.len() - i,
        {
            copy.push(shard_configs[i]);
            i += 1;
            assert(copy@ =~= shard_configs@.take(i as int));
        }
        assert(copy@ =~= shard_configs@);
        Self::new(copy, num_centroids, config)
    }

    /// Search for top-k passages given what the shards decompressed, query after query
    pub fn search(&self, queries: Vec<ShardedQuery<S>>) -> (r: Vec<SearchResult<S>>)
        requires
            forall|q: int|
                0 <= q < queries@.len() ==> self.scorer.gatherable(
                    (#[trigger] queries@[q]).outputs@,
                    queries@[q].num_cells as nat,
                ),
        ensures
            r@.len() == queries@.len(),
            forall|q: int|
                0 <= q < r@.len() ==> self.scorer.ranks_sharded(
                    q,
                    queries@[q].outputs@,
                    queries@[q].num_cells as nat,
                    queries@[q].mse_estimate@,
                    #[trigger] r@[q],
                ),
    {
        self.scorer.rank(queries)
    }
}

} // verus!
