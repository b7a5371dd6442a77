//! Why a search over shards gives what a search over the whole index gives.

use crate::score::Score;
use crate::search::gather;
use crate::search::loader;
use crate::search::merger;
use crate::search::ranking;
use crate::search::scorer;
use crate::search::scorer::{ProbedQuery, ShardedWARPScorer, WARPScorer};
use crate::utils::types;
use crate::utils::types::{IndexMetadata, SearchResult, ShardCellOutput, ShardConfig};
use vstd::prelude::*;

verus! {

/// The shards own the ranges between the boundaries.
pub open spec fn configs_for(configs: Seq<ShardConfig>, boundaries: Seq<usize>) -> bool {
    &&& configs.len() + 1 == boundaries.len()
    &&& forall|s: int|
        #![trigger configs[s]]
        0 <= s < configs.len() ==> configs[s].centroid_start == boundaries[s]
            && configs[s].centroid_end == boundaries[s + 1]
}

/// The shards that a loader plans own the ranges between the metadata's boundaries.
pub proof fn planned_shards_follow_boundaries(
    metadata: IndexMetadata,
    devices: int,
    configs: Vec<ShardConfig>,
)
    requires
        loader::plans_shards(metadata, devices, Ok(configs)),
    ensures
        metadata.shard_boundaries matches Some(b) && configs_for(configs@, b@),
{
}

/// A shard decompressed its own cells, and gave each the candidates, size and
/// capacity that the whole index gives it.
pub open spec fn faithful<S>(
    output: ShardCellOutput<S>,
    shard: ShardConfig,
    centroid_ids: Seq<i64>,
    capacities: Seq<i64>,
    sizes: Seq<i32>,
    pids: Seq<i64>,
    scores: Seq<S>,
) -> bool {
    let own = output.global_cell_indices@;
    &&& own == scorer::owned_cells(
        centroid_ids,
        shard.centroid_start as int,
        shard.centroid_end as int,
        centroid_ids.len() as int,
    )
    &&& forall|l: int|
        #![trigger own[l]]
        0 <= l < own.len() ==> {
            &&& output.sizes@[l] == sizes[own[l] as int]
            &&& output.capacities@[l] == capacities[own[l] as int]
            &&& merger::cell(output.sizes@, output.passage_ids@, output.scores@, l)
                == merger::cell(sizes, pids, scores, own[l] as int)
        }
}

proof fn owned_cells_hold(centroid_ids: Seq<i64>, start: int, end: int, n: int)
    requires
        0 <= n <= centroid_ids.len() <= usize::MAX,
    ensures
        forall|l: int|
            0 <= l < scorer::owned_cells(centroid_ids, start, end, n).len() ==> {
                let g = #[trigger] scorer::owned_cells(centroid_ids, start, end, n)[l];
                g < n && start <= centroid_ids[g as int] < end
            },
        forall|g: int|
            0 <= g < n && start <= #[trigger] centroid_ids[g] < end ==> scorer::owned_cells(
                centroid_ids,
                start,
                end,
                n,
            ).contains(g as usize),
    decreases n,
{
    if 0 < n {
        owned_cells_hold(centroid_ids, start, end, n - 1);
        let rest = scorer::owned_cells(centroid_ids, start, end, n - 1);
        let all = scorer::owned_cells(centroid_ids, start, end, n);
        assert forall|g: int|
            0 <= g < n && start <= #[trigger] centroid_ids[g] < end implies all.contains(
            g as usize,
        ) by {
            if g < n - 1 {
                assert(rest.contains(g as usize));
                let l = choose|l: int| 0 <= l < rest.len() && rest[l] == g as usize;
                assert(all[l] == g as usize);
            } else {
                assert(all[all.len() - 1] == g as usize);
            }
        }
    }
}

proof fn place_is_owner<S>(
    outputs: Seq<ShardCellOutput<S>>,
    configs: Seq<ShardConfig>,
    boundaries: Seq<usize>,
    num_centroids: int,
    centroid_ids: Seq<i64>,
    capacities: Seq<i64>,
    sizes: Seq<i32>,
    pids: Seq<i64>,
    scores: Seq<S>,
    n: int,
    owner: int,
    g: int,
)
    requires
        0 <= owner < n <= outputs.len(),
        outputs.len() == configs.len(),
        configs_for(configs, boundaries),
        types::covers(boundaries, num_centroids),
        centroid_ids.len() <= usize::MAX,
        0 <= g < centroid_ids.len(),
        types::holds(boundaries, owner, centroid_ids[g] as int),
        forall|s: int|
            0 <= s < outputs.len() ==> faithful(
                #[trigger] outputs[s],
                configs[s],
                centroid_ids,
                capacities,
                sizes,
                pids,
                scores,
            ),
    ensures
        gather::place(outputs, n, g) matches Some((s, l)) && s == owner && 0 <= l
            < outputs[s].global_cell_indices@.len() && outputs[s].global_cell_indices@[l] == g,
    decreases n,
{
    let s = n - 1;
    let own = outputs[s].global_cell_indices@;
    assert(faithful(outputs[s], configs[s], centroid_ids, capacities, sizes, pids, scores));
    owned_cells_hold(
        centroid_ids,
        configs[s].centroid_start as int,
        configs[s].centroid_end as int,
        centroid_ids.len() as int,
    );
    gather::last_local_finds(own, own.len() as int, g);
    if s == owner {
        assert(own.contains(g as usize));
    } else {
        if let Some(l) = gather::last_local(own, own.len() as int, g) {
            assert(own[l] == g);
            assert(types::holds(boundaries, s, centroid_ids[g] as int));
            assert(boundaries[owner + 1] <= boundaries[s]);
        }
        place_is_owner(
            outputs,
            configs,
            boundaries,
            num_centroids,
            centroid_ids,
            capacities,
            sizes,
            pids,
            scores,
            n - 1,
            owner,
            g,
        );
    }
}

/// A search over shards is exact: where every shard decompresses the cells it
/// owns as the whole index would, gathering gives back the whole index's cells,
/// with the same capacities and sizes, in the same arrays. The merge that
/// follows thus starts from the same input.
pub proof fn shards_reassemble<S>(
    outputs: Seq<ShardCellOutput<S>>,
    configs: Seq<ShardConfig>,
    boundaries: Seq<usize>,
    num_centroids: int,
    centroid_ids: Seq<i64>,
    capacities: Seq<i64>,
    sizes: Seq<i32>,
    pids: Seq<i64>,
    scores: Seq<S>,
)
    requires
        types::covers(boundaries, num_centroids),
        configs_for(configs, boundaries),
        outputs.len() == configs.len(),
        centroid_ids.len() <= usize::MAX,
        forall|g: int| 0 <= g < centroid_ids.len() ==> 0 <= #[trigger] centroid_ids[g] < num_centroids,
        capacities.len() == centroid_ids.len(),
        sizes.len() == centroid_ids.len(),
        forall|g: int| 0 <= g < sizes.len() ==> 0 <= #[trigger] sizes[g],
        pids.len() == merger::cell_offset(sizes, sizes.len() as int),
        scores.len() == pids.len(),
        forall|s: int|
            0 <= s < outputs.len() ==> faithful(
                #[trigger] outputs[s],
                configs[s],
                centroid_ids,
                capacities,
                sizes,
                pids,
                scores,
            ),
    ensures
        gather::gathered_capacities(outputs, centroid_ids.len()) == capacities,
        gather::gathered_sizes(outputs, centroid_ids.len()) == sizes,
        gather::gathered_cells(outputs, centroid_ids.len()) == merger::cells(
            sizes.len(),
            sizes,
            pids,
            scores,
        ),
        forall|p: Seq<i64>, q: Seq<S>| #[trigger]
            scorer::gathered(outputs, centroid_ids.len(), p, q) ==> p == pids && q == scores,
{
    let n = centroid_ids.len();
    assert forall|g: int| 0 <= g < n implies ({
        let at = #[trigger] gather::place(outputs, outputs.len() as int, g);
        &&& gather::placed_size(outputs, at) == sizes[g]
        &&& gather::placed_capacity(outputs, at) == capacities[g]
        &&& gather::placed_cell(outputs, at) == merger::cell(sizes, pids, scores, g)
    }) by {
        types::one_shard_per_centroid(boundaries, num_centroids, centroid_ids[g] as int);
        let owner = choose|s: int| types::holds(boundaries, s, centroid_ids[g] as int);
        place_is_owner(
            outputs,
            configs,
            boundaries,
            num_centroids,
            centroid_ids,
            capacities,
            sizes,
            pids,
            scores,
            outputs.len() as int,
            owner,
            g,
        );
        assert(faithful(
            outputs[owner],
            configs[owner],
            centroid_ids,
            capacities,
            sizes,
            pids,
            scores,
        ));
    }
    assert(gather::gathered_capacities(outputs, n) =~= capacities);
    assert(gather::gathered_sizes(outputs, n) =~= sizes);
    assert(gather::gathered_cells(outputs, n) =~= merger::cells(n, sizes, pids, scores));
    assert forall|p: Seq<i64>, q: Seq<S>| #[trigger]
        scorer::gathered(outputs, n, p, q) implies p == pids && q == scores by {
        assert forall|c: int| 0 <= c < n implies #[trigger] merger::cell(sizes, p, q, c)
            == merger::cell(sizes, pids, scores, c) by {
            assert(merger::cells(n, sizes, p, q)[c] == merger::cells(n, sizes, pids, scores)[c]);
        }
        assert forall|i: int| 0 <= i < p.len() implies p[i] == pids[i] by {
            gather::cells_fix_arrays(sizes, n as int, p, q, pids, scores, i);
        }
        assert forall|i: int| 0 <= i < q.len() implies q[i] == scores[i] by {
            gather::cells_fix_arrays(sizes, n as int, p, q, pids, scores, i);
        }
        assert(p =~= pids);
        assert(q =~= scores);
    }
}

/// A search over shards ranks as a search over the whole index does: what it
/// gives for a query is what a scorer with the same configuration gives for the
/// cells that the whole index would give.
pub proof fn sharded_search_is_exact<S: Score>(
    sharded: ShardedWARPScorer<S>,
    whole: WARPScorer<S>,
    query_idx: int,
    outputs: Seq<ShardCellOutput<S>>,
    boundaries: Seq<usize>,
    centroid_ids: Seq<i64>,
    query: ProbedQuery<S>,
    result: SearchResult<S>,
)
    requires
        sharded.merger == whole.merger,
        sharded.config == whole.config,
        types::covers(boundaries, sharded.num_centroids as int),
        configs_for(sharded.shard_configs@, boundaries),
        outputs.len() == sharded.shard_configs@.len(),
        centroid_ids.len() <= usize::MAX,
        forall|g: int|
            0 <= g < centroid_ids.len() ==> 0 <= #[trigger] centroid_ids[g]
                < sharded.num_centroids,
        query.cells.capacities@.len() == centroid_ids.len(),
        query.cells.sizes@.len() == centroid_ids.len(),
        forall|g: int| 0 <= g < query.cells.sizes@.len() ==> 0 <= #[trigger] query.cells.sizes@[g],
        query.cells.passage_ids@.len() == merger::cell_offset(
            query.cells.sizes@,
            query.cells.sizes@.len() as int,
        ),
        query.cells.scores@.len() == query.cells.passage_ids@.len(),
        forall|s: int|
            0 <= s < outputs.len() ==> faithful(
                #[trigger] outputs[s],
                sharded.shard_configs@[s],
                centroid_ids,
                query.cells.capacities@,
                query.cells.sizes@,
                query.cells.passage_ids@,
                query.cells.scores@,
            ),
        sharded.ranks_sharded(
            query_idx,
            outputs,
            centroid_ids.len(),
            query.mse_estimate@,
            result,
        ),
    ensures
        whole.ranks(query_idx, query, result),
{
    shards_reassemble(
        outputs,
        sharded.shard_configs@,
        boundaries,
        sharded.num_centroids as int,
        centroid_ids,
        query.cells.capacities@,
        query.cells.sizes@,
        query.cells.passage_ids@,
        query.cells.scores@,
    );
}

/// The shards may answer in any order: where no cell is in the outputs of two of
/// them, the passages are ranked alike.
pub proof fn shards_answer_in_any_order<S: Score>(
    sharded: ShardedWARPScorer<S>,
    query_idx: int,
    outputs: Seq<ShardCellOutput<S>>,
    order: Seq<usize>,
    num_cells: nat,
    mse: Seq<S>,
    result: SearchResult<S>,
)
    requires
        ranking::arrangement(outputs.len(), order),
        outputs.len() <= usize::MAX,
        gather::disjoint_cells(outputs),
        sharded.ranks_sharded(
            query_idx,
            gather::reordered(outputs, order),
            num_cells,
            mse,
            result,
        ),
    ensures
        sharded.ranks_sharded(query_idx, outputs, num_cells, mse, result),
{
    let others = gather::reordered(outputs, order);
    gather::order_of_shards_is_free(outputs, order, num_cells);
    assert forall|p: Seq<i64>, q: Seq<S>| #[trigger]
        scorer::gathered(others, num_cells, p, q) implies scorer::gathered(
        outputs,
        num_cells,
        p,
        q,
    ) by {}
}

proof fn global_sizes_upto(
    configs: Seq<ShardConfig>,
    boundaries: Seq<usize>,
    locals: Seq<Vec<i64>>,
    sizes: Seq<i64>,
    n: int,
)
    requires
        0 <= n <= configs.len(),
        types::covers(boundaries, sizes.len() as int),
        configs_for(configs, boundaries),
        locals.len() == configs.len(),
        forall|s: int|
            0 <= s < locals.len() ==> (#[trigger] locals[s])@ == sizes.subrange(
                boundaries[s] as int,
                boundaries[s + 1] as int,
            ),
    ensures
        scorer::global_sizes(configs, locals, sizes.len(), n).len() == sizes.len(),
        forall|c: int|
            0 <= c < boundaries[n] ==> #[trigger] scorer::global_sizes(
                configs,
                locals,
                sizes.len(),
                n,
            )[c] == sizes[c],
    decreases n,
{
    if 0 < n {
        global_sizes_upto(configs, boundaries, locals, sizes, n - 1);
        let before = scorer::global_sizes(configs, locals, sizes.len(), n - 1);
        let after = scorer::global_sizes(configs, locals, sizes.len(), n);
        assert(configs[n - 1].centroid_start == boundaries[n - 1]);
        assert(boundaries[n - 1] <= boundaries[n]);
        assert(boundaries[n] <= boundaries[boundaries.len() - 1]);
        assert(locals[n - 1]@ == sizes.subrange(
            boundaries[n - 1] as int,
            boundaries[n] as int,
        ));
        assert forall|c: int| 0 <= c < boundaries[n] implies #[trigger] after[c] == sizes[c] by {
            if c < boundaries[n - 1] {
                assert(before[c] == sizes[c]);
            }
        }
    }
}

/// The shards' sizes, put together, are the sizes of the whole index. Centroids
/// are thus selected as for the whole index.
pub proof fn shard_sizes_reassemble(
    configs: Seq<ShardConfig>,
    boundaries: Seq<usize>,
    locals: Seq<Vec<i64>>,
    sizes: Seq<i64>,
)
    requires
        types::covers(boundaries, sizes.len() as int),
        configs_for(configs, boundaries),
        locals.len() == configs.len(),
        forall|s: int|
            0 <= s < locals.len() ==> (#[trigger] locals[s])@ == sizes.subrange(
                boundaries[s] as int,
                boundaries[s + 1] as int,
            ),
    ensures
        scorer::global_sizes(configs, locals, sizes.len(), locals.len() as int) == sizes,
{
    global_sizes_upto(configs, boundaries, locals, sizes, locals.len() as int);
    assert(scorer::global_sizes(configs, locals, sizes.len(), locals.len() as int) =~= sizes);
}

} // verus!
