//! Ranking of passages for queries, on one device and over shards.

use crate::score::Score;
use crate::search::gather;
use crate::search::merger;
use crate::search::merger::{MergerConfig, ResultMerger};
use crate::search::ShardedQuery;
use crate::utils::batching;
use crate::utils::types;
use crate::utils::types::{
    DecompressedCentroidsOutput, Device, DeviceError, DtypeError, Kind, SearchConfig, SearchResult,
    ShardCellOutput, ShardConfig,
};
use vstd::prelude::*;

verus! {

/// `rayon::current_num_threads`: the number of threads of the current pool.
/// Nothing is promised of it.
pub assume_specification[ rayon::current_num_threads ]() -> usize;

/// The number of candidates kept where none is configured.
pub const DEFAULT_MAX_CANDIDATES: usize = 256;

/// Why a scorer cannot be made.
#[derive(Debug)]
pub enum ScorerError {
    Device(DeviceError),
    Dtype(DtypeError),
}

/// The threads of a pool: those asked for, else those available, but at least one.
pub open spec fn pool_size(requested: Option<usize>, available: usize) -> usize {
    let n = match requested {
        Some(n) => n,
        None => available,
    };
    if n < 1 {
        1
    } else {
        n
    }
}

/// The threads of a pool: those asked for, else those available, but at least one.
pub fn pool_threads(requested: Option<usize>, available: usize) -> (r: usize)
    ensures
        r == pool_size(requested, available),
        r >= 1,
        requested matches Some(n) ==> n >= 1 ==> r == n,
        requested is None && available >= 1 ==> r == available,
{
    let n: usize = match requested {
        Some(n) => n,
        None => available,
    };
    if n < 1 {
        1
    } else {
        n
    }
}

/// The merger that a search configuration asks for.
pub open spec fn merger_for<S>(config: SearchConfig<S>, device: Device) -> MergerConfig {
    MergerConfig {
        max_candidates: match config.max_candidates {
            Some(n) => n,
            None => DEFAULT_MAX_CANDIDATES,
        },
        num_threads: match config.num_threads {
            Some(n) => n,
            None => 1,
        },
        device,
    }
}

fn merger_config<S>(config: &SearchConfig<S>, device: Device) -> (r: MergerConfig)
    ensures
        r == merger_for(*config, device),
{
    MergerConfig {
        max_candidates: match config.max_candidates {
            Some(n) => n,
            None => DEFAULT_MAX_CANDIDATES,
        },
        num_threads: match config.num_threads {
            Some(n) => n,
            None => 1,
        },
        device,
    }
}

/// What a configuration's device and dtype resolve to: both, or the error of
/// the first that is not supported.
pub open spec fn resolves<S>(
    config: SearchConfig<S>,
    r: Result<(Device, Kind), ScorerError>,
) -> bool {
    let device = config.device@;
    let dtype = config.dtype@;
    match r {
        Ok((d, k)) => types::names_device(types::lowercase(device), device, Ok(d))
            && types::names_dtype(types::lowercase(dtype), dtype, Ok(k)),
        Err(ScorerError::Device(e)) => types::names_device(
            types::lowercase(device),
            device,
            Err(e),
        ),
        Err(ScorerError::Dtype(e)) => (exists|d: Device|
            #[trigger] types::names_device(types::lowercase(device), device, Ok(d)))
            && types::names_dtype(types::lowercase(dtype), dtype, Err(e)),
    }
}

fn resolve<S>(config: &SearchConfig<S>) -> (r: Result<(Device, Kind), ScorerError>)
    ensures
        resolves(*config, r),
{
    let device = match types::parse_device(config.device.as_str()) {
        Ok(d) => d,
        Err(e) => {
            return Err(ScorerError::Device(e));
        },
    };
    match types::parse_dtype(config.dtype.as_str()) {
        Ok(k) => Ok((device, k)),
        Err(e) => {
            assert(types::names_device(
                types::lowercase(config.device@),
                config.device@,
                Ok(device),
            ));
            Err(ScorerError::Dtype(e))
        },
    }
}

/// The cells that were probed for a query, with the estimates of its tokens.
pub struct ProbedQuery<S> {
    pub cells: DecompressedCentroidsOutput<S>,
    pub mse_estimate: Vec<S>,
}

/// Ranks passages with an index on one device.
pub struct WARPScorer<S> {
    /// Result merger for combining scores
    pub merger: ResultMerger,
    /// Configuration
    pub config: SearchConfig<S>,
    /// Device to perform the scoring on
    pub device: Device,
    /// Element type of the index
    pub dtype: Kind,
    /// Threads of the pool
    pub num_threads: usize,
    /// Batch size for centroid matmul
    pub batch_size: i64,
}

impl<S: Score> WARPScorer<S> {
    pub fn new(config: SearchConfig<S>) -> (r: Result<Self, ScorerError>)
        ensures
            match r {
                Ok(s) => {
                    &&& resolves(config, Ok((s.device, s.dtype)))
                    &&& s.merger.config == merger_for(config, s.device)
                    &&& s.config == config
                    &&& s.batch_size == config.batch_size
                    &&& exists|available: usize|
                        s.num_threads == #[trigger] pool_size(config.num_threads, available)
                },
                Err(e) => resolves(config, Err(e)),
            },
    {
        let (device, dtype) = match resolve(&config) {
            Ok(both) => both,
            Err(e) => {
                return Err(e);
            },
        };
        let available: usize = match config.num_threads {
            Some(n) => n,
            None => rayon::current_num_threads(),
        };
        let num_threads: usize = pool_threads(config.num_threads, available);
        let batch_size: i64 = config.batch_size;
        let merger = ResultMerger::new(merger_config(&config, device));
        Ok(WARPScorer { merger, config, device, dtype, num_threads, batch_size })
    }

    /// Whether the scorer can rank the query.
    pub open spec fn rankable(self, query: ProbedQuery<S>) -> bool {
        self.merger.mergeable(
            query.cells.capacities@.len(),
            query.cells.sizes@,
            query.cells.passage_ids@.len(),
            query.cells.scores@.len(),
            self.config.nprobe as int,
            self.config.k as int,
        )
    }

    /// `result` ranks the passages for query number `query_idx`.
    pub open spec fn ranks(
        self,
        query_idx: int,
        query: ProbedQuery<S>,
        result: SearchResult<S>,
    ) -> bool {
        &&& result.query_id == query_idx + 1
        &&& self.merger.merge_result(
            query.cells.capacities@.len(),
            query.cells.sizes@,
            query.cells.passage_ids@,
            query.cells.scores@,
            query.mse_estimate@,
            self.config.nprobe as int,
            self.config.k as int,
            result.passage_ids@,
            result.scores@,
        )
    }

    /// Process a single query
    pub fn process_query(&self, query_idx: usize, query: &ProbedQuery<S>) -> (r: SearchResult<S>)
        requires
            query_idx < usize::MAX,
            self.rankable(*query),
        ensures
            self.ranks(query_idx as int, *query, r),
    {
        let (passage_ids, scores) = self.merger.merge_candidate_scores(
            &query.cells.capacities,
            &query.cells.sizes,
            &query.cells.passage_ids,
            &query.cells.scores,
            &query.mse_estimate,
            self.config.nprobe as usize,
            self.config.k,
        );
        SearchResult { passage_ids, scores, query_id: query_idx + 1 }
    }

    /// The batches that `n_queries` queries are taken in, as start and length.
    pub fn query_batches(&self, n_queries: usize) -> (r: Vec<(usize, usize)>)
        requires
            0 < self.batch_size,
        ensures
            batching::are_batches(r@, n_queries as int, self.batch_size as int),
    {
        if self.batch_size as u64 >= n_queries as u64 {
            // One batch takes all
            let r = batching::batch_ranges(
                n_queries,
                if n_queries > 0 {
                    n_queries
                } else {
                    1
                },
            );
            proof {
                batching::one_batch(n_queries as int, self.batch_size as int);
                batching::one_batch(
                    n_queries as int,
                    if n_queries > 0 {
                        n_queries as int
                    } else {
                        1
                    },
                );
            }
            r
        } else {
            batching::batch_ranges(n_queries, self.batch_size as usize)
        }
    }

    /// Ranks passages for all queries, in order.
    pub fn rank(&self, queries: &Vec<ProbedQuery<S>>) -> (r: Vec<SearchResult<S>>)
        requires
            forall|q: int| 0 <= q < queries@.len() ==> self.rankable(#[trigger] queries@[q]),
        ensures
            r@.len() == queries@.len(),
            forall|q: int|
                0 <= q < r@.len() ==> self.ranks(q, queries@[q], #[trigger] r@[q]),
    {
        let mut r: Vec<SearchResult<S>> = Vec::new();
        let mut q: usize = 0;
        while q < queries.len()
            invariant
                q <= queries@.len(),
                r@.len() == q,
                forall|i: int| 0 <= i < queries@.len() ==> self.rankable(#[trigger] queries@[i]),
                forall|i: int| 0 <= i < q ==> self.ranks(i, queries@[i], #[trigger] r@[i]),
            decreases queries@.len() - q,
        {
            let result = self.process_query(q, &queries[q]);
            r.push(result);
            q += 1;
        }
        r
    }
}

/// The cells of a query that one shard decompresses.
pub struct LocalCells<S> {
    /// Positions in the global cell list
    pub cell_indices: Vec<usize>,
    pub centroid_ids: Vec<i64>,
    pub centroid_scores: Vec<S>,
    /// The query token of each cell
    pub token_indices: Vec<usize>,
}

/// The positions, among the first `n`, of the cells whose centroids lie from
/// `start` to `end`.
pub open spec fn owned_cells(centroid_ids: Seq<i64>, start: int, end: int, n: int) -> Seq<usize>
    decreases n,
{
    if n <= 0 {
        Seq::empty()
    } else {
        let rest = owned_cells(centroid_ids, start, end, n - 1);
        if start <= centroid_ids[n - 1] < end {
            rest.push((n - 1) as usize)
        } else {
            rest
        }
    }
}

/// A shard decompresses exactly the cells whose centroids it owns, each once, in
/// their order.
pub proof fn owned_cells_are_in_range(centroid_ids: Seq<i64>, start: int, end: int, n: int)
    requires
        0 <= n <= centroid_ids.len() <= usize::MAX,
    ensures
        forall|l: int|
            0 <= l < owned_cells(centroid_ids, start, end, n).len() ==> (#[trigger] owned_cells(
                centroid_ids,
                start,
                end,
                n,
            )[l]) < n && start <= centroid_ids[owned_cells(centroid_ids, start, end, n)[l] as int]
                < end,
        forall|l: int, m: int|
            0 <= l < m < owned_cells(centroid_ids, start, end, n).len() ==> (
            #[trigger] owned_cells(centroid_ids, start, end, n)[l]) < (#[trigger] owned_cells(
                centroid_ids,
                start,
                end,
                n,
            )[m]),
        forall|g: int|
            0 <= g < n && start <= #[trigger] centroid_ids[g] < end ==> owned_cells(
                centroid_ids,
                start,
                end,
                n,
            ).contains(g as usize),
    decreases n,
{
    if 0 < n {
        owned_cells_are_in_range(centroid_ids, start, end, n - 1);
        let rest = owned_cells(centroid_ids, start, end, n - 1);
        let all = owned_cells(centroid_ids, start, end, n);
        assert forall|g: int|
            0 <= g < n && start <= #[trigger] centroid_ids[g] < end implies all.contains(
            g as usize,
        ) by {
            if g < n - 1 {
                assert(rest.contains(g as usize));
                let l = choose|l: int| 0 <= l < rest.len() && rest[l] == g as usize;
                assert(all[l] == g as usize);
            } else {
                assert(all[all.len() - 1] == g as usize);
            }
        }
    }
}

/// A global list of sizes with one shard's sizes written over it from `start` on.
pub open spec fn overlaid(global: Seq<i64>, start: int, local: Seq<i64>) -> Seq<i64> {
    Seq::new(
        global.len(),
        |c: int|
            if start <= c < start + local.len() {
                local[c - start]
            } else {
                global[c]
            },
    )
}

/// The sizes of all centroids: each of the first `n` shards gives those of its own.
pub open spec fn global_sizes(
    configs: Seq<ShardConfig>,
    locals: Seq<Vec<i64>>,
    num_centroids: nat,
    n: int,
) -> Seq<i64>
    decreases n,
{
    if n <= 0 {
        Seq::new(num_centroids, |c: int| 0i64)
    } else {
        overlaid(
            global_sizes(configs, locals, num_centroids, n - 1),
            configs[n - 1].centroid_start as int,
            locals[n - 1]@,
        )
    }
}

/// `i` is the position of the first smallest number.
pub open spec fn first_smallest(sizes: Seq<i64>, i: int) -> bool {
    &&& 0 <= i < sizes.len()
    &&& forall|j: int| 0 <= j < sizes.len() ==> sizes[i] <= #[trigger] sizes[j]
    &&& forall|j: int| 0 <= j < i ==> sizes[i] < #[trigger] sizes[j]
}

/// The position of the first smallest number.
pub fn argmin(sizes: &Vec<i64>) -> (r: usize)
    requires
        0 < sizes@.len(),
    ensures
        first_smallest(sizes@, r as int),
        r < sizes@.len(),
        forall|j: int| 0 <= j < sizes@.len() ==> sizes@[r as int] <= #[trigger] sizes@[j],
        forall|j: int| 0 <= j < r ==> sizes@[r as int] < #[trigger] sizes@[j],
{
    let mut best: usize = 0;
    let mut i: usize = 1;
    while i < sizes.len()
        invariant
            best < i <= sizes@.len(),
            forall|j: int| 0 <= j < i ==> sizes@[best as int] <= #[trigger] sizes@[j],
            forall|j: int| 0 <= j < best ==> sizes@[best as int] < #[trigger] sizes@[j],
        decreases sizes@.len() - i,
    {
        if sizes[i] < sizes[best] {
            best = i;
        }
        i += 1;
    }
    best
}

/// Ranks passages with an index whose centroids are spread over shards.
///
/// Centroids are selected once for all shards. Each shard decompresses only the
/// cells whose centroids fall in its range. The cells are gathered and merged.
pub struct ShardedWARPScorer<S> {
    pub shard_configs: Vec<ShardConfig>,
    pub num_centroids: usize,
    pub merger: ResultMerger,
    pub config: SearchConfig<S>,
    pub coord_device: Device,
    pub dtype: Kind,
}

impl<S: Score> ShardedWARPScorer<S> {
    pub fn new(shard_configs: Vec<ShardConfig>, num_centroids: usize, config: SearchConfig<S>) -> (r:
        Result<Self, ScorerError>)
        ensures
            match r {
                Ok(s) => {
                    &&& resolves(config, Ok((s.coord_device, s.dtype)))
                    &&& s.merger.config == merger_for(config, s.coord_device)
                    &&& s.config == config
                    &&& s.shard_configs == shard_configs
                    &&& s.num_centroids == num_centroids
                },
                Err(e) => resolves(config, Err(e)),
            },
    {
        let (coord_device, dtype) = match resolve(&config) {
            Ok(both) => both,
            Err(e) => {
                return Err(e);
            },
        };
        let merger = ResultMerger::new(merger_config(&config, coord_device));
        Ok(ShardedWARPScorer { shard_configs, num_centroids, merger, config, coord_device, dtype })
    }

    /// The sizes of all centroids, from the sizes that each shard has of its own,
    /// and the dummy centroid: the first with the smallest size.
    pub fn build_global_sizes(&self, shard_sizes: &Vec<Vec<i64>>) -> (r: (Vec<i64>, i64))
        requires
            0 < self.num_centroids <= i64::MAX,
            shard_sizes@.len() == self.shard_configs@.len(),
            forall|s: int|
                0 <= s < shard_sizes@.len() ==> (#[trigger] self.shard_configs@[s]).centroid_start
                    + shard_sizes@[s]@.len() <= self.num_centroids,
        ensures
            r.0@ == global_sizes(
                self.shard_configs@,
                shard_sizes@,
                self.num_centroids as nat,
                shard_sizes@.len() as int,
            ),
            first_smallest(r.0@, r.1 as int),
    {
        let mut global: Vec<i64> = Vec::new();
        let mut c: usize = 0;
        while c < self.num_centroids
            invariant
                c <= self.num_centroids,
                global@ == Seq::new(c as nat, |i: int| 0i64),
            decreases self.num_centroids - c,
        {
            global.push(0);
            c += 1;
        }
        let mut s: usize = 0;
        while s < shard_sizes.len()
            invariant
                s <= shard_sizes@.len(),
                shard_sizes@.len() == self.shard_configs@.len(),
                forall|t: int|
                    0 <= t < shard_sizes@.len() ==> (
                    #[trigger] self.shard_configs@[t]).centroid_start + shard_sizes@[t]@.len()
                        <= self.num_centroids,
                global@.len() == self.num_centroids,
                global@ == global_sizes(
                    self.shard_configs@,
                    shard_sizes@,
                    self.num_centroids as nat,
                    s as int,
                ),
            decreases shard_sizes@.len() - s,
        {
            let ghost before = global@;
            let start: usize = self.shard_configs[s].centroid_start;
            let local = &shard_sizes[s];
            assert(self.shard_configs@[s as int].centroid_start + local@.len()
                <= self.num_centroids);
            let mut i: usize = 0;
            while i < local.len()
                invariant
                    i <= local@.len(),
                    start + local@.len() <= self.num_centroids,
                    global@.len() == self.num_centroids,
                    before.len() == global@.len(),
                    forall|j: int|
                        0 <= j < global@.len() ==> #[trigger] global@[j] == if start <= j < start
                            + i {
                            local@[j - start]
                        } else {
                            before[j]
                        },
                decreases local@.len() - i,
            {
                global.set(start + i, local[i]);
                i += 1;
            }
            assert(global@ =~= overlaid(before, start as int, local@));
            s += 1;
        }
        let kdummy: usize = argmin(&global);
        (global, kdummy as i64)
    }

    /// The cells that a shard decompresses: those whose centroids it owns.
    pub fn local_cells(
        &self,
        shard: &ShardConfig,
        centroid_ids: &Vec<i64>,
        centroid_scores: &Vec<S>,
    ) -> (r: LocalCells<S>)
        requires
            0 < self.config.nprobe,
            centroid_ids@.len() <= centroid_scores@.len(),
        ensures
            r.cell_indices@ == owned_cells(
                centroid_ids@,
                shard.centroid_start as int,
                shard.centroid_end as int,
                centroid_ids@.len() as int,
            ),
            r.centroid_ids@.len() == r.cell_indices@.len(),
            r.centroid_scores@.len() == r.cell_indices@.len(),
            r.token_indices@.len() == r.cell_indices@.len(),
            forall|l: int|
                0 <= l < r.cell_indices@.len() ==> {
                    let g = #[trigger] r.cell_indices@[l] as int;
                    &&& shard.centroid_start <= centroid_ids@[g] < shard.centroid_end
                    &&& r.centroid_ids@[l] == centroid_ids@[g]
                    &&& r.centroid_scores@[l] == centroid_scores@[g]
                    &&& r.token_indices@[l] == g / self.config.nprobe as int
                },
            r.centroid_ids@ == r.cell_indices@.map_values(|g: usize| centroid_ids@[g as int]),
            r.centroid_scores@ == r.cell_indices@.map_values(|g: usize| centroid_scores@[g as int]),
            r.token_indices@ == r.cell_indices@.map_values(
                |g: usize| (g / self.config.nprobe as usize) as usize,
            ),
    {
        let nprobe: usize = self.config.nprobe as usize;
        let mut cell_indices: Vec<usize> = Vec::new();
        let mut ids: Vec<i64> = Vec::new();
        let mut scores: Vec<S> = Vec::new();
        let mut tokens: Vec<usize> = Vec::new();
        let mut g: usize = 0;
        assert(centroid_ids@.len() == centroid_ids.len());
        while g < centroid_ids.len()
            invariant
                0 < nprobe,
                nprobe == self.config.nprobe,
                g <= centroid_ids@.len(),
                centroid_ids@.len() <= centroid_scores@.len(),
                cell_indices@ == owned_cells(
                    centroid_ids@,
                    shard.centroid_start as int,
                    shard.centroid_end as int,
                    g as int,
                ),
                ids@ == cell_indices@.map_values(|g: usize| centroid_ids@[g as int]),
                scores@ == cell_indices@.map_values(|g: usize| centroid_scores@[g as int]),
                tokens@ == cell_indices@.map_values(
                    |g: usize| (g / self.config.nprobe as usize) as usize,
                ),
            decreases centroid_ids@.len() - g,
        {
            let cid: i64 = centroid_ids[g];
            if cid >= 0 && cid as u64 >= shard.centroid_start as u64 && (cid as u64)
                < shard.centroid_end as u64 {
                cell_indices.push(g);
                ids.push(cid);
                scores.push(centroid_scores[g]);
                // Preserve the global token assignment
                tokens.push(g / nprobe);
            }
            g += 1;
            assert(ids@ =~= cell_indices@.map_values(|g: usize| centroid_ids@[g as int]));
            assert(scores@ =~= cell_indices@.map_values(|g: usize| centroid_scores@[g as int]));
            assert(tokens@ =~= cell_indices@.map_values(
                |g: usize| (g / self.config.nprobe as usize) as usize,
            ));
        }
        proof {
            owned_cells_are_in_range(
                centroid_ids@,
                shard.centroid_start as int,
                shard.centroid_end as int,
                centroid_ids@.len() as int,
            );
        }
        LocalCells {
            cell_indices,
            centroid_ids: ids,
            centroid_scores: scores,
            token_indices: tokens,
        }
    }

    /// Score a single query from the cells that the shards decompressed.
    pub fn process_query_sharded(
        &self,
        query_idx: usize,
        shard_outputs: Vec<ShardCellOutput<S>>,
        num_cells: usize,
        mse_estimate: &Vec<S>,
    ) -> (r: SearchResult<S>)
        requires
            query_idx < usize::MAX,
            self.gatherable(shard_outputs@, num_cells as nat),
        ensures
            self.ranks_sharded(
                query_idx as int,
                shard_outputs@,
                num_cells as nat,
                mse_estimate@,
                r,
            ),
    {
        // Gather shard results into unified cell structure
        let all = gather::gather_shard_cells(shard_outputs, num_cells);
        assert(gathered(shard_outputs@, num_cells as nat, all.passage_ids@, all.scores@));
        let (passage_ids, scores) = self.merger.merge_candidate_scores(
            &all.capacities,
            &all.sizes,
            &all.passage_ids,
            &all.scores,
            mse_estimate,
            self.config.nprobe as usize,
            self.config.k,
        );
        SearchResult { passage_ids, scores, query_id: query_idx + 1 }
    }

    /// `result` ranks the passages for query number `query_idx`, from the cells
    /// that the shards decompressed.
    pub open spec fn ranks_sharded(
        self,
        query_idx: int,
        outputs: Seq<ShardCellOutput<S>>,
        num_cells: nat,
        mse: Seq<S>,
        result: SearchResult<S>,
    ) -> bool {
        &&& result.query_id == query_idx + 1
        &&& exists|pids: Seq<i64>, scores: Seq<S>|
            {
                &&& #[trigger] gathered(outputs, num_cells, pids, scores)
                &&& self.merger.merge_result(
                    num_cells,
                    gather::gathered_sizes(outputs, num_cells),
                    pids,
                    scores,
                    mse,
                    self.config.nprobe as int,
                    self.config.k as int,
                    result.passage_ids@,
                    result.scores@,
                )
            }
    }

    /// Ranks passages for all queries, in order.
    pub fn rank(&self, queries: Vec<ShardedQuery<S>>) -> (r: Vec<SearchResult<S>>)
        requires
            forall|q: int|
                0 <= q < queries@.len() ==> self.gatherable(
                    (#[trigger] queries@[q]).outputs@,
                    queries@[q].num_cells as nat,
                ),
        ensures
            r@.len() == queries@.len(),
            forall|q: int|
                0 <= q < r@.len() ==> self.ranks_sharded(
                    q,
                    queries@[q].outputs@,
                    queries@[q].num_cells as nat,
                    queries@[q].mse_estimate@,
                    #[trigger] r@[q],
                ),
    {
        let ghost all = queries@;
        let n: usize = queries.len();
        let mut queries = queries;
        // Taken from the end, and put in order afterwards.
        let mut rest: Vec<SearchResult<S>> = Vec::new();
        let mut q: usize = n;
        while 0 < q
            invariant
                q <= n,
                n == all.len(),
                queries@ == all.take(q as int),
                rest@.len() == n - q,
                forall|i: int|
                    0 <= i < all.len() ==> self.gatherable(
                        (#[trigger] all[i]).outputs@,
                        all[i].num_cells as nat,
                    ),
                forall|i: int|
                    q <= i < n ==> self.ranks_sharded(
                        i,
                        all[i].outputs@,
                        all[i].num_cells as nat,
                        all[i].mse_estimate@,
                        #[trigger] rest@[n - 1 - i],
                    ),
            decreases q,
        {
            q -= 1;
            let ghost before = rest@;
            if let Some(query) = queries.pop() {
                assert(query == all[q as int]);
                let result = self.process_query_sharded(
                    q,
                    query.outputs,
                    query.num_cells,
                    &query.mse_estimate,
                );
                rest.push(result);
            }
            assert(queries@ =~= all.take(q as int));
            assert forall|i: int| q <= i < n implies self.ranks_sharded(
                i,
                all[i].outputs@,
                all[i].num_cells as nat,
                all[i].mse_estimate@,
                #[trigger] rest@[n - 1 - i],
            ) by {
                if i > q {
                    assert(rest@[n - 1 - i] == before[n - 1 - i]);
                }
            }
        }
        let ghost ranked = rest@;
        let mut r: Vec<SearchResult<S>> = Vec::new();
        while 0 < rest.len()
            invariant
                rest@.len() + r@.len() == n,
                ranked.len() == n,
                rest@ == ranked.take(rest@.len() as int),
                forall|i: int| 0 <= i < r@.len() ==> #[trigger] r@[i] == ranked[n - 1 - i],
            decreases rest@.len(),
        {
            if let Some(result) = rest.pop() {
                r.push(result);
            }
            assert(rest@ =~= ranked.take(rest@.len() as int));
        }
        assert forall|i: int| 0 <= i < n implies self.ranks_sharded(
            i,
            all[i].outputs@,
            all[i].num_cells as nat,
            all[i].mse_estimate@,
            #[trigger] r@[i],
        ) by {
            assert(r@[i] == ranked[n - 1 - i]);
        }
        r
    }

    /// Whether the shards' cells can be gathered and merged, and are no more
    /// than memory can hold.
    pub fn can_gather(&self, outputs: &Vec<ShardCellOutput<S>>, num_cells: usize) -> (r: bool)
        ensures
            r == (self.gatherable(outputs@, num_cells as nat) && merger::cell_offset(
                gather::gathered_sizes(outputs@, num_cells as nat),
                num_cells as int,
            ) <= usize::MAX),
    {
        let mut s: usize = 0;
        while s < outputs.len()
            invariant
                s <= outputs@.len(),
                forall|t: int|
                    0 <= t < s ==> gather::output_wf(#[trigger] outputs@[t], num_cells as int),
            decreases outputs@.len() - s,
        {
            if !gather::output_fits(&outputs[s], num_cells) {
                assert(!gather::output_wf(outputs@[s as int], num_cells as int));
                return false;
            }
            s += 1;
        }
        let sizes = gather::gather_sizes(outputs, num_cells);
        let mut total: i128 = 0;
        let mut c: usize = 0;
        while c < num_cells
            invariant
                c <= num_cells,
                sizes@.len() == num_cells,
                forall|g: int| 0 <= g < sizes@.len() ==> 0 <= #[trigger] sizes@[g],
                total == merger::cell_offset(sizes@, c as int),
                0 <= total <= c * i32::MAX,
            decreases num_cells - c,
        {
            assert(0 <= sizes@[c as int]);
            total = total + sizes[c] as i128;
            c += 1;
        }
        total <= usize::MAX as i128 && self.merger.can_merge(
            num_cells,
            &sizes,
            total as usize,
            total as usize,
            self.config.nprobe as usize,
            self.config.k,
        )
    }

    /// The shards' cells can be gathered and merged.
    pub open spec fn gatherable(
        self,
        outputs: Seq<ShardCellOutput<S>>,
        num_cells: nat,
    ) -> bool {
        &&& forall|s: int|
            0 <= s < outputs.len() ==> gather::output_wf(#[trigger] outputs[s], num_cells as int)
        &&& ({
            let sizes = gather::gathered_sizes(outputs, num_cells);
            let total = merger::cell_offset(sizes, num_cells as int);
            self.merger.mergeable(
                num_cells,
                sizes,
                total as nat,
                total as nat,
                self.config.nprobe as int,
                self.config.k as int,
            )
        })
    }
}

/// The arrays hold the gathered cells, one after the other, and nothing else.
pub open spec fn gathered<S>(
    outputs: Seq<ShardCellOutput<S>>,
    num_cells: nat,
    pids: Seq<i64>,
    scores: Seq<S>,
) -> bool {
    let sizes = gather::gathered_sizes(outputs, num_cells);
    &&& merger::cells(num_cells, sizes, pids, scores) == gather::gathered_cells(outputs, num_cells)
    &&& pids.len() == merger::cell_offset(sizes, num_cells as int)
    &&& scores.len() == merger::cell_offset(sizes, num_cells as int)
}

} // verus!
