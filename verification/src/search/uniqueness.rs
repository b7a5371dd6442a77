//! Why a query has one result: the ranking leaves nothing open.

use crate::score;
use crate::score::Score;
use crate::search::grouping;
use crate::search::grouping::TokenHit;
use crate::search::merger;
use crate::search::merger::ResultMerger;
use crate::search::ranking;
use crate::search::scorer::{ProbedQuery, ShardedWARPScorer, WARPScorer};
use crate::search::sharding;
use crate::utils::types;
use crate::utils::types::{SearchResult, ShardCellOutput};
use vstd::prelude::*;

verus! {

/// The positions in `order` come first: earlier entries before later ones, and
/// all of them before the positions below `count` that are left out.
pub open spec fn come_first(
    precedes: spec_fn(int, int) -> bool,
    count: nat,
    order: Seq<usize>,
) -> bool {
    &&& forall|a: int, b: int|
        0 <= a < b < order.len() ==> precedes(
            #[trigger] order[a] as int,
            #[trigger] order[b] as int,
        )
    &&& forall|a: int, i: usize|
        0 <= a < order.len() && i < count && !(#[trigger] order.contains(i)) ==> precedes(
            #[trigger] order[a] as int,
            i as int,
        )
}

proof fn later_follows(
    precedes: spec_fn(int, int) -> bool,
    count: nat,
    order: Seq<usize>,
    a: int,
    x: usize,
)
    requires
        come_first(precedes, count, order),
        0 <= a < order.len(),
        x < count,
        forall|b: int| 0 <= b <= a ==> #[trigger] order[b] != x,
    ensures
        precedes(order[a] as int, x as int),
{
    if order.contains(x) {
        let b = choose|b: int| 0 <= b < order.len() && order[b] == x;
        assert(a < b);
        assert(precedes(order[a] as int, order[b] as int));
    }
}

/// As many positions come first in one way only, where no two positions precede
/// each other.
proof fn one_order(
    precedes: spec_fn(int, int) -> bool,
    count: nat,
    p: Seq<usize>,
    q: Seq<usize>,
    n: int,
)
    requires
        p.len() == q.len(),
        0 <= n <= p.len(),
        ranking::positions(count, p),
        ranking::positions(count, q),
        come_first(precedes, count, p),
        come_first(precedes, count, q),
        forall|i: int, j: int|
            0 <= i < count && 0 <= j < count && #[trigger] precedes(i, j) ==> !precedes(j, i),
    ensures
        p.take(n) == q.take(n),
    decreases n,
{
    if 0 < n {
        one_order(precedes, count, p, q, n - 1);
        let a = n - 1;
        assert forall|b: int| 0 <= b < a implies #[trigger] p[b] == q[b] by {
            assert(p.take(a)[b] == q.take(a)[b]);
        }
        if p[a] != q[a] {
            assert forall|b: int| 0 <= b <= a implies #[trigger] p[b] != q[a] by {
                if b < a {
                    assert(q[b] != q[a]);
                }
            }
            assert forall|b: int| 0 <= b <= a implies #[trigger] q[b] != p[a] by {
                if b < a {
                    assert(p[b] != p[a]);
                }
            }
            later_follows(precedes, count, p, a, q[a]);
            later_follows(precedes, count, q, a, p[a]);
        }
    }
    assert(p.take(n) =~= q.take(n));
}

/// Scores that can be ranked have one order of the best, however it was found: any
/// positions that are ranked, best first, are those that ranking gives.
pub proof fn ranked_order_is_unique<S: Score>(scores: Seq<S>, p: Seq<usize>, q: Seq<usize>)
    requires
        score::rankable(scores),
        p.len() == q.len(),
        ranking::positions(scores.len(), p),
        ranking::positions(scores.len(), q),
        ranking::ranked(scores, p),
        ranking::ranked(scores, q),
    ensures
        p == q,
{
    let precedes = |i: int, j: int| ranking::before(scores, i, j);
    assert forall|i: int, j: int|
        0 <= i < scores.len() && 0 <= j < scores.len() && #[trigger] precedes(
            i,
            j,
        ) implies !precedes(j, i) by {
        if scores[i].spec_exceeds(scores[j]) && scores[j].spec_exceeds(scores[i]) {
            assert(scores[i].spec_exceeds(scores[i]));
        }
    }
    assert(come_first(precedes, scores.len(), p)) by {
        assert forall|a: int, i: usize|
            0 <= a < p.len() && i < scores.len() && !(#[trigger] p.contains(i)) implies precedes(
            #[trigger] p[a] as int,
            i as int,
        ) by {
            assert(ranking::before(scores, p[a] as int, i as int));
        }
    }
    assert(come_first(precedes, scores.len(), q)) by {
        assert forall|a: int, i: usize|
            0 <= a < q.len() && i < scores.len() && !(#[trigger] q.contains(i)) implies precedes(
            #[trigger] q[a] as int,
            i as int,
        ) by {
            assert(ranking::before(scores, q[a] as int, i as int));
        }
    }
    one_order(precedes, scores.len(), p, q, p.len() as int);
    assert(p.take(p.len() as int) =~= p);
    assert(q.take(q.len() as int) =~= q);
}

/// Candidates are grouped in one way only.
pub proof fn groups_are_unique<S: Score>(
    hits: Seq<TokenHit<S>>,
    mse: Seq<S>,
    num_tokens: int,
    docs: Seq<(i64, S)>,
    other: Seq<(i64, S)>,
)
    requires
        grouping::grouped(hits, mse, num_tokens, docs),
        grouping::grouped(hits, mse, num_tokens, other),
    ensures
        docs == other,
{
    let p = choose|order: Seq<usize>| #[trigger]
        grouping::key_sorted(hits, order) && docs == grouping::passage_totals(
            grouping::maxima(grouping::arranged(hits, order)),
            mse,
            num_tokens,
        );
    let q = choose|order: Seq<usize>| #[trigger]
        grouping::key_sorted(hits, order) && other == grouping::passage_totals(
            grouping::maxima(grouping::arranged(hits, order)),
            mse,
            num_tokens,
        );
    let precedes = |i: int, j: int|
        grouping::smaller_key(hits[i], hits[j]) || (grouping::same_key(hits[i], hits[j]) && i < j);
    assert(come_first(precedes, hits.len(), p));
    assert(come_first(precedes, hits.len(), q));
    one_order(precedes, hits.len(), p, q, p.len() as int);
    assert(p.take(p.len() as int) =~= p);
    assert(q.take(q.len() as int) =~= q);
}

/// Mergers that give the same results: they run on the same device, up to its
/// number, and keep as many candidates. Threads play no role.
pub open spec fn same_merger(a: ResultMerger, b: ResultMerger) -> bool {
    &&& a.config.device is Cuda <==> b.config.device is Cuda
    &&& a.config.max_candidates == b.config.max_candidates
}

/// A merge has one result.
pub proof fn merge_result_is_unique<S: Score>(
    a: ResultMerger,
    b: ResultMerger,
    num_cells: nat,
    sizes: Seq<i32>,
    pids: Seq<i64>,
    scores: Seq<S>,
    mse: Seq<S>,
    nprobe: int,
    k: int,
    result: (Seq<i64>, Seq<S>),
    other: (Seq<i64>, Seq<S>),
)
    requires
        same_merger(a, b),
        a.merge_result(num_cells, sizes, pids, scores, mse, nprobe, k, result.0, result.1),
        b.merge_result(num_cells, sizes, pids, scores, mse, nprobe, k, other.0, other.1),
    ensures
        result == other,
{
    if a.config.device is Cuda {
        if pids.len() == 0 {
            assert(result.0 =~= other.0);
            assert(result.1 =~= other.1);
        } else {
            let cells = merger::cells(sizes.len(), sizes, pids, scores);
            let hits = grouping::token_hits(cells, nprobe, cells.len() as int);
            let num_tokens = (cells.len() + nprobe - 1) / nprobe;
            let cap = a.config.max_candidates as int;
            let (docs, p) = choose|docs: Seq<(i64, S)>, order: Seq<usize>|
                {
                    &&& #[trigger] grouping::grouped(hits, mse, num_tokens, docs)
                    &&& #[trigger] merger::best(
                        docs,
                        order,
                        merger::result_budget(cap, docs.len() as int, k),
                    )
                    &&& result.0 == merger::padded_pids(docs, order, order.len() as int)
                    &&& result.1 == merger::padded_scores(docs, order, order.len() as int)
                };
            let (docs2, q) = choose|docs: Seq<(i64, S)>, order: Seq<usize>|
                {
                    &&& #[trigger] grouping::grouped(hits, mse, num_tokens, docs)
                    &&& #[trigger] merger::best(
                        docs,
                        order,
                        merger::result_budget(cap, docs.len() as int, k),
                    )
                    &&& other.0 == merger::padded_pids(docs, order, order.len() as int)
                    &&& other.1 == merger::padded_scores(docs, order, order.len() as int)
                };
            groups_are_unique(hits, mse, num_tokens, docs, docs2);
            assert(p == q);
        }
    } else {
        let cells = merger::cells(num_cells, sizes, pids, scores);
        let docs = merger::document_list(cells, mse, nprobe, cells.len() as int / nprobe);
        let budget = merger::result_budget(a.config.max_candidates as int, docs.len() as int, k);
        let p = choose|order: Seq<usize>| #[trigger]
            merger::best(docs, order, budget) && result.0 == merger::padded_pids(docs, order, budget)
                && result.1 == merger::padded_scores(docs, order, budget);
        let q = choose|order: Seq<usize>| #[trigger]
            merger::best(docs, order, budget) && other.0 == merger::padded_pids(docs, order, budget)
                && other.1 == merger::padded_scores(docs, order, budget);
        assert(p == q);
    }
}

/// Scorers that rank alike: their mergers give the same results, and they probe
/// and return as many. Their threads and batch sizes may differ.
pub open spec fn rank_alike<S: Score>(a: WARPScorer<S>, b: WARPScorer<S>) -> bool {
    &&& same_merger(a.merger, b.merger)
    &&& a.config.nprobe == b.config.nprobe
    &&& a.config.k == b.config.k
}

/// The same passages with the same scores, in the same order.
pub open spec fn same_passages<S>(a: SearchResult<S>, b: SearchResult<S>) -> bool {
    &&& a.passage_ids@ == b.passage_ids@
    &&& a.scores@ == b.scores@
}

/// A query has one result, at whatever place it stands.
pub proof fn ranking_is_unique<S: Score>(
    a: WARPScorer<S>,
    b: WARPScorer<S>,
    i: int,
    j: int,
    query: ProbedQuery<S>,
    result: SearchResult<S>,
    other: SearchResult<S>,
)
    requires
        rank_alike(a, b),
        a.ranks(i, query, result),
        b.ranks(j, query, other),
    ensures
        same_passages(result, other),
        i == j ==> result.query_id == other.query_id,
{
    merge_result_is_unique(
        a.merger,
        b.merger,
        query.cells.capacities@.len(),
        query.cells.sizes@,
        query.cells.passage_ids@,
        query.cells.scores@,
        query.mse_estimate@,
        a.config.nprobe as int,
        a.config.k as int,
        (result.passage_ids@, result.scores@),
        (other.passage_ids@, other.scores@),
    );
}

/// A merge gives one score for each passage.
pub proof fn passages_have_scores<S: Score>(
    merger: ResultMerger,
    num_cells: nat,
    sizes: Seq<i32>,
    pids: Seq<i64>,
    scores: Seq<S>,
    mse: Seq<S>,
    nprobe: int,
    k: int,
    result_pids: Seq<i64>,
    result_scores: Seq<S>,
)
    requires
        merger.merge_result(
            num_cells,
            sizes,
            pids,
            scores,
            mse,
            nprobe,
            k,
            result_pids,
            result_scores,
        ),
    ensures
        result_pids.len() == result_scores.len(),
{
}

/// The result of a query among many is, but for its number, the result of the
/// query alone, whatever the threads and batch sizes of the two scorers are. Its
/// number is its place, counted from one, and each of its passages has a score.
pub proof fn queries_do_not_interfere<S: Score>(
    all: WARPScorer<S>,
    alone: WARPScorer<S>,
    queries: Seq<ProbedQuery<S>>,
    results: Seq<SearchResult<S>>,
    single: SearchResult<S>,
    i: int,
)
    requires
        rank_alike(all, alone),
        results.len() == queries.len(),
        0 <= i < queries.len(),
        all.ranks(i, queries[i], results[i]),
        alone.ranks(0, queries[i], single),
    ensures
        same_passages(results[i], single),
        results[i].query_id == i + 1,
        single.query_id == 1,
        results[i].passage_ids@.len() == results[i].scores@.len(),
{
    passages_have_scores(
        all.merger,
        queries[i].cells.capacities@.len(),
        queries[i].cells.sizes@,
        queries[i].cells.passage_ids@,
        queries[i].cells.scores@,
        queries[i].mse_estimate@,
        all.config.nprobe as int,
        all.config.k as int,
        results[i].passage_ids@,
        results[i].scores@,
    );
    ranking_is_unique(all, alone, i, 0, queries[i], results[i], single);
}

/// A search over shards gives the result of a search over the whole index: the
/// same passages in the same order, with the same scores and the same number of
/// the query.
pub proof fn sharded_result_is_whole_result<S: Score>(
    sharded: ShardedWARPScorer<S>,
    whole: WARPScorer<S>,
    query_idx: int,
    outputs: Seq<ShardCellOutput<S>>,
    boundaries: Seq<usize>,
    centroid_ids: Seq<i64>,
    query: ProbedQuery<S>,
    result: SearchResult<S>,
    other: SearchResult<S>,
)
    requires
        sharded.merger == whole.merger,
        sharded.config == whole.config,
        types::covers(boundaries, sharded.num_centroids as int),
        sharding::configs_for(sharded.shard_configs@, boundaries),
        outputs.len() == sharded.shard_configs@.len(),
        centroid_ids.len() <= usize::MAX,
        forall|g: int|
            0 <= g < centroid_ids.len() ==> 0 <= #[trigger] centroid_ids[g]
                < sharded.num_centroids,
        query.cells.capacities@.len() == centroid_ids.len(),
        query.cells.sizes@.len() == centroid_ids.len(),
        forall|g: int| 0 <= g < query.cells.sizes@.len() ==> 0 <= #[trigger] query.cells.sizes@[g],
        query.cells.passage_ids@.len() == merger::cell_offset(
            query.cells.sizes@,
            query.cells.sizes@.len() as int,
        ),
        query.cells.scores@.len() == query.cells.passage_ids@.len(),
        forall|s: int|
            0 <= s < outputs.len() ==> sharding::faithful(
                #[trigger] outputs[s],
                sharded.shard_configs@[s],
                centroid_ids,
                query.cells.capacities@,
                query.cells.sizes@,
                query.cells.passage_ids@,
                query.cells.scores@,
            ),
        sharded.ranks_sharded(
            query_idx,
            outputs,
            centroid_ids.len(),
            query.mse_estimate@,
            result,
        ),
        whole.ranks(query_idx, query, other),
    ensures
        same_passages(result, other),
        result.query_id == query_idx + 1,
        other.query_id == query_idx + 1,
{
    sharding::sharded_search_is_exact(
        sharded,
        whole,
        query_idx,
        outputs,
        boundaries,
        centroid_ids,
        query,
        result,
    );
    ranking_is_unique(whole, whole, query_idx, query_idx, query, result, other);
}

} // verus!
