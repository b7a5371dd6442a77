//! Merging of per-cell candidate lists into ranked passages.

pub use crate::search::gather::gather_shard_cells;

use crate::score::Score;
use crate::search::combiner;
use crate::search::combiner::{Combiner, ReduceMaxCombiner, ReduceSumMseCombiner};
use crate::search::grouping;
use crate::search::grouping::TokenHit;
use crate::search::ranking;
use crate::search::reduction;
use crate::utils::types::Device;
use vstd::prelude::*;

verus! {

/// A list of candidates: passage IDs with their scores, of which the first
/// `size` are valid.
pub struct AnnotatedStrideView<S> {
    /// Passage IDs
    pub pids: Vec<i64>,
    /// Scores
    pub scores: Vec<S>,
    /// Actual size of valid data
    pub size: usize,
}

impl<S> AnnotatedStrideView<S> {
    /// The valid entries are all backed by data.
    pub open spec fn wf(self) -> bool {
        &&& self.size <= self.pids@.len()
        &&& self.size <= self.scores@.len()
    }

    /// The valid entries, as pairs of passage ID and score.
    pub open spec fn entries(self) -> Seq<(i64, S)> {
        Seq::new(self.size as nat, |i: int| (self.pids@[i], self.scores@[i]))
    }
}

impl<S: Score> AnnotatedStrideView<S> {
    /// An empty list with room for `capacity` entries.
    pub fn with_capacity(capacity: usize) -> (view: Self)
        ensures
            view.wf(),
            view.entries() == Seq::<(i64, S)>::empty(),
            view.pids@ == Seq::new(capacity as nat, |i: int| 0i64),
            view.scores@ == Seq::new(capacity as nat, |i: int| S::spec_zero()),
            view.size == 0,
    {
        let mut pids: Vec<i64> = Vec::new();
        let mut scores: Vec<S> = Vec::new();
        let mut i: usize = 0;
        while i < capacity
            invariant
                i <= capacity,
                pids@ == Seq::new(i as nat, |j: int| 0i64),
                scores@ == Seq::new(i as nat, |j: int| S::spec_zero()),
            decreases capacity - i,
        {
            pids.push(0);
            scores.push(S::zero());
            i += 1;
        }
        AnnotatedStrideView { pids, scores, size: 0 }
    }

    /// A list over existing data.
    pub fn from_data(pids: Vec<i64>, scores: Vec<S>, size: usize) -> (view: Self)
        ensures
            view.pids == pids,
            view.scores == scores,
            view.size == size,
    {
        AnnotatedStrideView { pids, scores, size }
    }
}

/// The candidates of every list.
pub open spec fn contents<S>(views: Seq<AnnotatedStrideView<S>>) -> Seq<Seq<(i64, S)>> {
    views.map_values(|v: AnnotatedStrideView<S>| v.entries())
}

/// Every list is valid.
pub open spec fn views_wf<S>(views: Seq<AnnotatedStrideView<S>>) -> bool {
    forall|i: int| 0 <= i < views.len() ==> (#[trigger] views[i]).wf()
}

/// The number of candidates in the first `n` cells.
pub open spec fn cell_offset(sizes: Seq<i32>, n: int) -> int
    decreases n,
{
    if n <= 0 {
        0
    } else {
        cell_offset(sizes, n - 1) + sizes[n - 1]
    }
}

/// The candidates of one cell.
pub open spec fn cell<S>(
    sizes: Seq<i32>,
    pids: Seq<i64>,
    scores: Seq<S>,
    i: int,
) -> Seq<(i64, S)> {
    Seq::new(
        sizes[i] as nat,
        |j: int| (pids[cell_offset(sizes, i) + j], scores[cell_offset(sizes, i) + j]),
    )
}

/// The candidates of all cells, which lie one after the other in `pids` and `scores`.
pub open spec fn cells<S>(
    num_cells: nat,
    sizes: Seq<i32>,
    pids: Seq<i64>,
    scores: Seq<S>,
) -> Seq<Seq<(i64, S)>> {
    Seq::new(num_cells, |i: int| cell(sizes, pids, scores, i))
}

/// The candidates of a query token: those of its `nprobe` cells, merged.
pub open spec fn token_list<S: Score>(
    cells: Seq<Seq<(i64, S)>>,
    nprobe: int,
    token: int,
) -> Seq<(i64, S)> {
    reduction::full_tree(cells, token * nprobe, 1, nprobe, reduction::max_combiners())
}

/// The passages with their scores over all query tokens: the tokens' candidates, merged.
pub open spec fn document_list<S: Score>(
    cells: Seq<Seq<(i64, S)>>,
    mse: Seq<S>,
    nprobe: int,
    num_tokens: int,
) -> Seq<(i64, S)> {
    reduction::full_tree(
        Seq::new(num_tokens as nat, |t: int| token_list(cells, nprobe, t)),
        0,
        1,
        num_tokens,
        reduction::mse_combiners(mse, num_tokens),
    )
}

/// How many passages a search may hand on: all of them up to the cap, but never
/// fewer than `k`.
pub open spec fn result_budget(max_candidates: int, found: int, k: int) -> int {
    let capped = if max_candidates < found {
        max_candidates
    } else {
        found
    };
    if capped < k {
        k
    } else {
        capped
    }
}

/// The passages at the given positions, padded to `length` with passage 0 and
/// score zero.
pub open spec fn padded_pids<S>(docs: Seq<(i64, S)>, order: Seq<usize>, length: int) -> Seq<i64> {
    Seq::new(
        length as nat,
        |i: int|
            if i < order.len() {
                docs[order[i] as int].0
            } else {
                0
            },
    )
}

/// The scores at the given positions, padded to `length` with zero.
pub open spec fn padded_scores<S: Score>(
    docs: Seq<(i64, S)>,
    order: Seq<usize>,
    length: int,
) -> Seq<S> {
    Seq::new(
        length as nat,
        |i: int|
            if i < order.len() {
                docs[order[i] as int].1
            } else {
                S::spec_zero()
            },
    )
}

/// The scores of a list of passages.
pub open spec fn scores_of<S>(docs: Seq<(i64, S)>) -> Seq<S> {
    docs.map_values(|e: (i64, S)| e.1)
}

/// The positions `order` are those of the `count` best passages, best first. Where
/// the scores can be ranked, this is their descending order; in any case it is one
/// order, which the scores and the count determine.
pub open spec fn best<S: Score>(docs: Seq<(i64, S)>, order: Seq<usize>, count: int) -> bool {
    &&& order == ranking::top_order(scores_of(docs), count)
    &&& order.len() == if count < docs.len() {
        count
    } else {
        docs.len() as int
    }
    &&& ranking::positions(docs.len(), order)
    &&& crate::score::rankable(scores_of(docs)) ==> ranking::ranked(scores_of(docs), order)
}

/// The best passages come in descending order of their scores, and none of
/// those left out scores higher than one of them.
pub proof fn best_descend<S: Score>(docs: Seq<(i64, S)>, order: Seq<usize>, count: int)
    requires
        best(docs, order, count),
        crate::score::rankable(scores_of(docs)),
    ensures
        forall|a: int, b: int|
            0 <= a < b < order.len() ==> !docs[#[trigger] order[b] as int].1.spec_exceeds(
                docs[#[trigger] order[a] as int].1,
            ),
        forall|a: int, i: int|
            #![trigger order[a], docs[i]]
            0 <= a < order.len() && 0 <= i < docs.len() && !order.contains(i as usize)
                ==> !docs[i].1.spec_exceeds(docs[order[a] as int].1),
{
    let scores = scores_of(docs);
    assert forall|i: int, j: int|
        0 <= i < docs.len() && 0 <= j < docs.len() && ranking::before(
            scores,
            i,
            j,
        ) implies !#[trigger] docs[j].1.spec_exceeds(#[trigger] docs[i].1) by {
        assert(scores[i] == docs[i].1 && scores[j] == docs[j].1);
        if scores[j].spec_exceeds(scores[i]) {
            assert(scores[i].spec_exceeds(scores[j]));
            assert(scores[i].spec_exceeds(scores[i]));
        }
    }
    assert forall|a: int, b: int| 0 <= a < b < order.len() implies !docs[
        #[trigger] order[b] as int].1.spec_exceeds(docs[#[trigger] order[a] as int].1) by {
        assert(ranking::before(scores, order[a] as int, order[b] as int));
    }
    assert forall|a: int, i: int|
        #![trigger order[a], docs[i]]
        0 <= a < order.len() && 0 <= i < docs.len() && !order.contains(
            i as usize,
        ) implies !docs[i].1.spec_exceeds(docs[order[a] as int].1) by {
        assert(order[a] < docs.len());
        assert(ranking::before(scores, order[a] as int, i));
    }
}

proof fn offsets_increase(sizes: Seq<i32>, i: int, j: int)
    requires
        0 <= i <= j <= sizes.len(),
        forall|c: int| 0 <= c < j ==> 0 <= #[trigger] sizes[c],
    ensures
        0 <= cell_offset(sizes, i) <= cell_offset(sizes, j),
    decreases j,
{
    if i < j {
        offsets_increase(sizes, i, j - 1);
    } else if 0 < j {
        offsets_increase(sizes, i - 1, j - 1);
    }
}

/// The cells from `begin` on hold as many candidates as their sizes say.
proof fn cells_span<S>(
    num_cells: nat,
    sizes: Seq<i32>,
    pids: Seq<i64>,
    scores: Seq<S>,
    begin: int,
    n: int,
)
    requires
        0 <= begin,
        0 <= n,
        begin + n <= num_cells <= sizes.len(),
        forall|c: int| 0 <= c < num_cells ==> 0 <= #[trigger] sizes[c],
    ensures
        reduction::span(cells(num_cells, sizes, pids, scores), begin, 1, 0, n) == cell_offset(
            sizes,
            begin + n,
        ) - cell_offset(sizes, begin),
    decreases n,
{
    if 0 < n {
        cells_span(num_cells, sizes, pids, scores, begin, n - 1);
    }
}

/// The tokens' lists together hold no more candidates than the cells.
proof fn token_lists_span<S: Score>(
    lists: Seq<Seq<(i64, S)>>,
    num_cells: nat,
    sizes: Seq<i32>,
    pids: Seq<i64>,
    scores: Seq<S>,
    nprobe: int,
    n: int,
)
    requires
        0 < nprobe,
        0 <= n,
        n * nprobe <= num_cells <= sizes.len(),
        forall|c: int| 0 <= c < num_cells ==> 0 <= #[trigger] sizes[c],
        forall|t: int|
            0 <= t < n ==> #[trigger] lists[t * nprobe] == token_list(
                cells(num_cells, sizes, pids, scores),
                nprobe,
                t,
            ),
    ensures
        reduction::span(lists, 0, nprobe, 0, n) <= cell_offset(sizes, n * nprobe),
    decreases n,
{
    if 0 < n {
        let t = n - 1;
        assert(t * nprobe + nprobe == n * nprobe && 0 <= t * nprobe) by (nonlinear_arith)
            requires
                t == n - 1,
                0 < n,
                0 < nprobe,
        ;
        token_lists_span(lists, num_cells, sizes, pids, scores, nprobe, t);
        reduction::top_step_is_power(nprobe, 1);
        reduction::tree_length(
            cells(num_cells, sizes, pids, scores),
            t * nprobe,
            1,
            nprobe,
            0,
            reduction::top_step(nprobe, 1),
            reduction::max_combiners(),
        );
        cells_span(num_cells, sizes, pids, scores, t * nprobe, nprobe);
        assert(lists[t * nprobe] == token_list(cells(num_cells, sizes, pids, scores), nprobe, t));
    } else {
        assert(n * nprobe == 0) by (nonlinear_arith)
            requires
                n == 0,
        ;
    }
}

/// Configuration for the merger
#[derive(Clone, Copy)]
pub struct MergerConfig {
    /// Maximum number of candidates to keep during merging
    pub max_candidates: usize,
    /// Number of threads for parallel operations
    pub num_threads: usize,
    /// Device to use
    pub device: Device,
}

/// Combines candidate lists from multiple sources
#[derive(Clone, Copy)]
pub struct ResultMerger {
    pub config: MergerConfig,
}

/// Elements with fillers behind them, up to `n` elements; all of them where there
/// are `n` already.
pub open spec fn grown<T>(s: Seq<T>, n: nat, filler: T) -> Seq<T> {
    Seq::new(
        reduction::longer(s.len(), n),
        |i: int|
            if i < s.len() {
                s[i]
            } else {
                filler
            },
    )
}

/// Grows `v` to `n` elements, where it has fewer.
fn ensure_length<T: Copy>(v: &mut Vec<T>, n: usize, filler: T)
    ensures
        final(v)@ == grown(old(v)@, n as nat, filler),
{
    while v.len() < n
        invariant
            old(v)@.len() <= v@.len() <= reduction::longer(old(v)@.len(), n as nat),
            v@ == grown(old(v)@, v@.len(), filler),
        decreases n - v.len(),
    {
        v.push(filler);
        assert(v@ =~= grown(old(v)@, v@.len(), filler));
    }
}

/// Beyond its first `size` elements a list is as it was, grown by fillers to
/// `room` elements where it had fewer.
pub open spec fn rest_kept<T>(
    before: Seq<T>,
    after: Seq<T>,
    size: int,
    room: nat,
    filler: T,
) -> bool {
    &&& after.len() == reduction::longer(before.len(), room)
    &&& forall|i: int|
        size <= i < after.len() ==> #[trigger] after[i] == grown(before, room, filler)[i]
}

/// Beyond its first `extent` entries a slot is as it was, grown to `room` entries
/// where it had fewer.
pub open spec fn room_kept<S: Score>(
    before: AnnotatedStrideView<S>,
    after: AnnotatedStrideView<S>,
    extent: int,
    room: nat,
) -> bool {
    &&& rest_kept(before.pids@, after.pids@, extent, room, 0)
    &&& rest_kept(before.scores@, after.scores@, extent, room, S::spec_zero())
}

/// Beyond its valid entries every slot is as it was, grown where it had less than
/// the room that it was given.
pub open spec fn rooms_kept<S: Score>(
    before: Seq<AnnotatedStrideView<S>>,
    after: Seq<AnnotatedStrideView<S>>,
    rooms: Seq<nat>,
) -> bool {
    &&& after.len() == before.len()
    &&& rooms.len() == before.len()
    &&& forall|i: int|
        0 <= i < before.len() ==> room_kept(
            before[i],
            #[trigger] after[i],
            after[i].size as int,
            rooms[i],
        )
}

proof fn room_grows<S: Score>(
    a: AnnotatedStrideView<S>,
    b: AnnotatedStrideView<S>,
    c: AnnotatedStrideView<S>,
    extent: int,
    first: nat,
    second: nat,
)
    requires
        room_kept(a, b, extent, first),
        room_kept(b, c, c.size as int, second),
        0 <= extent <= c.size,
    ensures
        room_kept(a, c, c.size as int, reduction::longer(first, second)),
{
}

/// The extents up to which a buffer's slots have been written over: none before
/// the first round.
spec fn extent<S>(view: AnnotatedStrideView<S>, untouched: bool) -> int {
    if untouched {
        0
    } else {
        view.size as int
    }
}

/// Every slot beyond its extent is as it was.
spec fn rooms_so_far<S: Score>(
    before: Seq<AnnotatedStrideView<S>>,
    now: Seq<AnnotatedStrideView<S>>,
    rooms: Seq<nat>,
    untouched: bool,
) -> bool {
    &&& now.len() == before.len()
    &&& rooms.len() == before.len()
    &&& forall|i: int|
        0 <= i < before.len() ==> room_kept(
            before[i],
            #[trigger] now[i],
            extent(now[i], untouched),
            rooms[i],
        )
}

/// A round over a buffer adds to the room of its slots.
proof fn round_keeps_rooms<S: Score, C: Combiner<S>>(
    base: Seq<AnnotatedStrideView<S>>,
    src: Seq<AnnotatedStrideView<S>>,
    dst: Seq<AnnotatedStrideView<S>>,
    after: Seq<AnnotatedStrideView<S>>,
    rooms: Seq<nat>,
    untouched: bool,
    begin: int,
    stride: int,
    n: int,
    step: int,
    comb: spec_fn(int, int) -> C,
)
    requires
        0 <= begin,
        0 < stride,
        0 < step,
        begin + (n - 1) * stride < dst.len(),
        rooms_so_far(base, dst, rooms, untouched),
        contents(after) == reduction::reduce_round(
            contents(src),
            contents(dst),
            begin,
            stride,
            n,
            step,
            0,
            comb,
        ),
        rooms_kept(
            dst,
            after,
            reduction::round_rooms(
                contents(src),
                reduction::no_rooms(dst.len()),
                begin,
                stride,
                n,
                step,
                0,
            ),
        ),
        untouched || reduction::outgrown(
            contents(dst),
            contents(src),
            begin,
            stride,
            n,
            step,
            0,
        ),
    ensures
        rooms_so_far(
            base,
            after,
            reduction::round_rooms(contents(src), rooms, begin, stride, n, step, 0),
            false,
        ),
{
    let lists = contents(src);
    let none = reduction::no_rooms(dst.len());
    reduction::rooms_add(lists, rooms, rooms, none, begin, stride, n, step, 0);
    let own = reduction::round_rooms(lists, none, begin, stride, n, step, 0);
    let all = reduction::round_rooms(lists, rooms, begin, stride, n, step, 0);
    if !untouched {
        assert((2 * 0) * step == 0) by (nonlinear_arith);
        reduction::round_extends(lists, contents(dst), begin, stride, n, step, 0, comb);
    }
    assert forall|i: int| 0 <= i < base.len() implies room_kept(
        base[i],
        #[trigger] after[i],
        extent(after[i], false),
        all[i],
    ) by {
        assert(contents(dst)[i].len() == dst[i].size);
        assert(contents(after)[i].len() == after[i].size);
        room_grows(
            base[i],
            dst[i],
            after[i],
            extent(dst[i], untouched),
            rooms[i],
            own[i],
        );
    }
}

impl ResultMerger {
    /// Creates a new result merger with the given configuration
    pub fn new(config: MergerConfig) -> (r: Self)
        ensures
            r.config == config,
    {
        ResultMerger { config }
    }

    /// Merges two candidate strides with specific combiner logic
    pub fn merge_candidate_strides_with_combiner<S: Score, C: Combiner<S>>(
        stride1: &AnnotatedStrideView<S>,
        stride2: &AnnotatedStrideView<S>,
        result: &mut AnnotatedStrideView<S>,
        combiner: &C,
    )
        requires
            stride1.wf(),
            stride2.wf(),
            stride1.size + stride2.size <= usize::MAX,
        ensures
            final(result).wf(),
            final(result).entries() == combiner::merged(stride1.entries(), stride2.entries(), *combiner),
            rest_kept(
                old(result).pids@,
                final(result).pids@,
                final(result).size as int,
                (stride1.size + stride2.size) as nat,
                0,
            ),
            rest_kept(
                old(result).scores@,
                final(result).scores@,
                final(result).size as int,
                (stride1.size + stride2.size) as nat,
                S::spec_zero(),
            ),
    {
        let c1_size: usize = stride1.size;
        let c2_size: usize = stride2.size;
        let mut result_size: usize = 0;
        let mut i1: usize = 0;
        let mut i2: usize = 0;
        let ghost a = stride1.entries();
        let ghost b = stride2.entries();

        ensure_length(&mut result.pids, c1_size + c2_size, 0);
        ensure_length(&mut result.scores, c1_size + c2_size, S::zero());
        let ghost room_pids = result.pids@;
        let ghost room_scores = result.scores@;

        let ghost mut done: Seq<(i64, S)> = Seq::empty();
        proof {
            assert(a.skip(0) == a);
            assert(b.skip(0) == b);
            assert(done + combiner::merged(a, b, *combiner) == combiner::merged(a, b, *combiner));
        }

        while i1 < c1_size && i2 < c2_size
            invariant
                stride1.wf(),
                stride2.wf(),
                c1_size == stride1.size,
                c2_size == stride2.size,
                a == stride1.entries(),
                b == stride2.entries(),
                i1 <= c1_size,
                i2 <= c2_size,
                result_size <= i1 + i2,
                c1_size + c2_size <= usize::MAX,
                c1_size + c2_size <= result.pids@.len(),
                c1_size + c2_size <= result.scores@.len(),
                result.pids@.len() == room_pids.len(),
                result.scores@.len() == room_scores.len(),
                forall|j: int|
                    result_size <= j < room_pids.len() ==> #[trigger] result.pids@[j]
                        == room_pids[j],
                forall|j: int|
                    result_size <= j < room_scores.len() ==> #[trigger] result.scores@[j]
                        == room_scores[j],
                done.len() == result_size,
                forall|j: int|
                    0 <= j < result_size ==> done[j] == (result.pids@[j], result.scores@[j]),
                combiner::merged(a, b, *combiner) == done + combiner::merged(
                    a.skip(i1 as int),
                    b.skip(i2 as int),
                    *combiner,
                ),
            decreases c1_size - i1 + c2_size - i2,
        {
            let key1: i64 = stride1.pids[i1];
            let key2: i64 = stride2.pids[i2];
            let ghost ta = a.skip(i1 as int);
            let ghost tb = b.skip(i2 as int);
            let ghost before = done;
            proof {
                assert(ta[0] == a[i1 as int]);
                assert(tb[0] == b[i2 as int]);
                assert(ta.drop_first() == a.skip(i1 + 1));
                assert(tb.drop_first() == b.skip(i2 + 1));
            }
            if key1 == key2 {
                result.pids.set(result_size, key1);
                result.scores.set(
                    result_size,
                    combiner.combine(stride1.scores[i1], stride2.scores[i2]),
                );
                i1 += 1;
                i2 += 1;
            } else if key1 < key2 {
                result.pids.set(result_size, key1);
                result.scores.set(result_size, combiner.lhs(stride1.scores[i1]));
                i1 += 1;
            } else {
                result.pids.set(result_size, key2);
                result.scores.set(result_size, combiner.rhs(stride2.scores[i2]));
                i2 += 1;
            }
            proof {
                let entry = (
                    result.pids@[result_size as int],
                    result.scores@[result_size as int],
                );
                done = done.push(entry);
                let rest = combiner::merged(a.skip(i1 as int), b.skip(i2 as int), *combiner);
                assert(combiner::merged(ta, tb, *combiner) == seq![entry] + rest);
                assert(done + rest == before + (seq![entry] + rest));
            }
            result_size += 1;
        }

        let ghost tail1 = a.skip(i1 as int);
        let ghost tail2 = b.skip(i2 as int);
        let ghost rest = combiner::merged(tail1, tail2, *combiner);
        let ghost head = done;
        let ghost start1 = i1;
        let ghost start2 = i2;
        let ghost start = result_size;
        proof {
            if i1 == c1_size {
                assert(tail1.len() == 0);
            } else {
                assert(tail2.len() == 0);
            }
        }

        // Copy remaining elements from stride1
        while i1 < c1_size
            invariant
                stride1.wf(),
                c1_size == stride1.size,
                a == stride1.entries(),
                start1 <= i1 <= c1_size,
                i2 <= c2_size,
                i1 < c1_size ==> i2 == c2_size,
                result_size == start + (i1 - start1),
                result_size <= i1 + i2,
                head.len() == start,
                tail1 == a.skip(start1 as int),
                start1 < c1_size ==> rest == tail1.map_values(
                    |e: (i64, S)| (e.0, combiner.spec_lhs(e.1)),
                ),
                c1_size + c2_size <= usize::MAX,
                c1_size + c2_size <= result.pids@.len(),
                c1_size + c2_size <= result.scores@.len(),
                result.pids@.len() == room_pids.len(),
                result.scores@.len() == room_scores.len(),
                forall|j: int|
                    result_size <= j < room_pids.len() ==> #[trigger] result.pids@[j]
                        == room_pids[j],
                forall|j: int|
                    result_size <= j < room_scores.len() ==> #[trigger] result.scores@[j]
                        == room_scores[j],
                forall|j: int|
                    0 <= j < start ==> head[j] == (result.pids@[j], result.scores@[j]),
                forall|j: int|
                    0 <= j < i1 - start1 ==> #[trigger] rest[j] == (
                        result.pids@[start + j],
                        result.scores@[start + j],
                    ),
            decreases c1_size - i1,
        {
            result.pids.set(result_size, stride1.pids[i1]);
            result.scores.set(result_size, combiner.lhs(stride1.scores[i1]));
            i1 += 1;
            result_size += 1;
        }

        // Copy remaining elements from stride2
        let ghost mid = result_size;
        while i2 < c2_size
            invariant
                stride2.wf(),
                c2_size == stride2.size,
                b == stride2.entries(),
                start2 <= i2 <= c2_size,
                i1 == c1_size,
                result_size == mid + (i2 - start2),
                result_size <= i1 + i2,
                head.len() == start,
                start <= mid,
                tail2 == b.skip(start2 as int),
                start2 < c2_size ==> mid == start && rest == tail2.map_values(
                    |e: (i64, S)| (e.0, combiner.spec_rhs(e.1)),
                ),
                c1_size + c2_size <= usize::MAX,
                c1_size + c2_size <= result.pids@.len(),
                c1_size + c2_size <= result.scores@.len(),
                result.pids@.len() == room_pids.len(),
                result.scores@.len() == room_scores.len(),
                forall|j: int|
                    result_size <= j < room_pids.len() ==> #[trigger] result.pids@[j]
                        == room_pids[j],
                forall|j: int|
                    result_size <= j < room_scores.len() ==> #[trigger] result.scores@[j]
                        == room_scores[j],
                forall|j: int|
                    0 <= j < start ==> head[j] == (result.pids@[j], result.scores@[j]),
                forall|j: int|
                    0 <= j < result_size - start ==> #[trigger] rest[j] == (
                        result.pids@[start + j],
                        result.scores@[start + j],
                    ),
            decreases c2_size - i2,
        {
            result.pids.set(result_size, stride2.pids[i2]);
            result.scores.set(result_size, combiner.rhs(stride2.scores[i2]));
            i2 += 1;
            result_size += 1;
        }

        result.size = result_size;
        proof {
            assert(rest.len() == result_size - start);
            assert(result.entries() =~= head + rest);
        }
    }

    /// Copies a candidate stride to another
    pub fn copy_candidate_stride<S: Score>(
        source: &AnnotatedStrideView<S>,
        destination: &mut AnnotatedStrideView<S>,
    )
        requires
            source.wf(),
        ensures
            final(destination).wf(),
            final(destination).entries() == source.entries(),
            rest_kept(
                old(destination).pids@,
                final(destination).pids@,
                source.size as int,
                source.size as nat,
                0,
            ),
            rest_kept(
                old(destination).scores@,
                final(destination).scores@,
                source.size as int,
                source.size as nat,
                S::spec_zero(),
            ),
    {
        let size: usize = source.size;
        ensure_length(&mut destination.pids, size, 0);
        ensure_length(&mut destination.scores, size, S::zero());
        let ghost room_pids = destination.pids@;
        let ghost room_scores = destination.scores@;
        let mut i: usize = 0;
        while i < size
            invariant
                source.wf(),
                size == source.size,
                i <= size,
                size <= destination.pids@.len(),
                size <= destination.scores@.len(),
                forall|j: int| 0 <= j < i ==> destination.pids@[j] == source.pids@[j],
                forall|j: int| 0 <= j < i ==> destination.scores@[j] == source.scores@[j],
                destination.pids@.len() == room_pids.len(),
                destination.scores@.len() == room_scores.len(),
                forall|j: int|
                    i <= j < room_pids.len() ==> #[trigger] destination.pids@[j] == room_pids[j],
                forall|j: int|
                    i <= j < room_scores.len() ==> #[trigger] destination.scores@[j]
                        == room_scores[j],
            decreases size - i,
        {
            destination.pids.set(i, source.pids[i]);
            destination.scores.set(i, source.scores[i]);
            i += 1;
        }
        destination.size = size;
        assert(destination.entries() =~= source.entries());
    }

    /// One round over the lists of a token.
    fn nprobe_round<S: Score>(
        src: &Vec<AnnotatedStrideView<S>>,
        dst: &mut Vec<AnnotatedStrideView<S>>,
        begin: usize,
        nprobe: usize,
        step: usize,
        Ghost(lists): Ghost<Seq<Seq<(i64, S)>>>,
    )
        requires
            views_wf(src@),
            views_wf(old(dst)@),
            0 < step < nprobe,
            begin + nprobe <= src@.len(),
            begin + nprobe <= old(dst)@.len(),
            reduction::bounded(contents(src@), lists, begin as int, 1, nprobe as int, step as int),
            reduction::span(lists, begin as int, 1, 0, nprobe as int) <= usize::MAX,
        ensures
            views_wf(final(dst)@),
            contents(final(dst)@) == reduction::reduce_round(
                contents(src@),
                contents(old(dst)@),
                begin as int,
                1,
                nprobe as int,
                step as int,
                0,
                reduction::max_combiners(),
            ),
            final(dst)@.len() == old(dst)@.len(),
            rooms_kept(
                old(dst)@,
                final(dst)@,
                reduction::round_rooms(
                    contents(src@),
                    reduction::no_rooms(old(dst)@.len()),
                    begin as int,
                    1,
                    nprobe as int,
                    step as int,
                    0,
                ),
            ),
    {
        let combiner = ReduceMaxCombiner;
        let mut lhs: usize = 0;
        assert(begin + nprobe <= src.len());
        let ghost goal = reduction::reduce_round(
            contents(src@),
            contents(dst@),
            begin as int,
            1,
            nprobe as int,
            step as int,
            0,
            reduction::max_combiners(),
        );
        let ghost goal_rooms = reduction::round_rooms(
            contents(src@),
            reduction::no_rooms(dst@.len()),
            begin as int,
            1,
            nprobe as int,
            step as int,
            0,
        );
        let ghost mut rooms: Seq<nat> = reduction::no_rooms(dst@.len());
        let ghost mut m: int = 0;
        while lhs < nprobe
            invariant
                views_wf(src@),
                views_wf(dst@),
                0 < step < nprobe,
                begin + nprobe <= usize::MAX,
                begin + nprobe <= src@.len(),
                begin + nprobe <= dst@.len(),
                dst@.len() == old(dst)@.len(),
                reduction::bounded(contents(src@), lists, begin as int, 1, nprobe as int, step as int),
                reduction::span(lists, begin as int, 1, 0, nprobe as int) <= usize::MAX,
                lhs <= nprobe,
                m >= 0,
                lhs < nprobe ==> lhs == (2 * m) * step,
                goal == reduction::reduce_round(
                    contents(src@),
                    contents(dst@),
                    begin as int,
                    1,
                    nprobe as int,
                    step as int,
                    lhs as int,
                    reduction::max_combiners(),
                ),
                rooms_kept(old(dst)@, dst@, rooms),
                forall|i: int| begin + lhs <= i < dst@.len() ==> #[trigger] dst@[i] == old(dst)@[i],
                forall|i: int| begin + lhs <= i < rooms.len() ==> #[trigger] rooms[i] == 0,
                goal_rooms == reduction::round_rooms(
                    contents(src@),
                    rooms,
                    begin as int,
                    1,
                    nprobe as int,
                    step as int,
                    lhs as int,
                ),
            decreases nprobe - lhs,
        {
            let ghost before = contents(dst@);
            let ghost slots = dst@;
            let ghost value = reduction::paired(
                contents(src@),
                begin as int,
                1,
                nprobe as int,
                step as int,
                lhs as int,
                reduction::max_combiners(),
            );
            if step < nprobe - lhs {
                let rhs: usize = lhs + step;
                proof {
                    let cur = contents(src@);
                    assert((2 * m + 1) * step == rhs) by (nonlinear_arith)
                        requires
                            lhs == (2 * m) * step,
                            rhs == lhs + step,
                    ;
                    let top = if rhs + step < nprobe {
                        rhs + step
                    } else {
                        nprobe as int
                    };
                    assert(cur[begin + ((2 * m) * step) * 1].len() == src@[begin + lhs].size);
                    assert(cur[begin + ((2 * m + 1) * step) * 1].len() == src@[begin
                        + rhs].size);
                    reduction::span_splits(lists, begin as int, 1, 0, lhs as int, nprobe as int);
                    reduction::span_splits(lists, begin as int, 1, lhs as int, rhs as int, nprobe as int);
                    reduction::span_splits(lists, begin as int, 1, rhs as int, top, nprobe as int);
                }
                Self::merge_candidate_strides_with_combiner(
                    &src[begin + lhs],
                    &src[begin + rhs],
                    &mut dst[begin + lhs],
                    &combiner,
                );
            } else {
                // No merge partner, copy as-is
                Self::copy_candidate_stride(&src[begin + lhs], &mut dst[begin + lhs]);
            }
            proof {
                assert(contents(dst@) =~= before.update(begin + lhs, value));
                reveal_with_fuel(reduction::reduce_round, 2);
                reveal_with_fuel(reduction::round_rooms, 2);
                let at = begin + lhs;
                let room = reduction::paired_room(
                    contents(src@),
                    begin as int,
                    1,
                    nprobe as int,
                    step as int,
                    lhs as int,
                );
                let given = rooms;
                assert(room_kept(slots[at], dst@[at], dst@[at].size as int, room));
                rooms = rooms.update(at, reduction::longer(rooms[at], room));
                assert(rooms_kept(old(dst)@, dst@, rooms)) by {
                    assert forall|i: int| 0 <= i < dst@.len() implies room_kept(
                        old(dst)@[i],
                        #[trigger] dst@[i],
                        dst@[i].size as int,
                        rooms[i],
                    ) by {
                        if i != at {
                            assert(dst@[i] == slots[i]);
                            assert(rooms[i] == given[i]);
                        }
                    }
                }
                assert forall|i: int| at < i < dst@.len() implies #[trigger] dst@[i]
                    == old(dst)@[i] by {
                    assert(dst@[i] == slots[i]);
                }
                assert forall|i: int| at < i < rooms.len() implies #[trigger] rooms[i] == 0 by {
                    assert(rooms[i] == given[i]);
                }
                reduction::slots_increase(begin as int, 1, lhs as int, lhs + 2 * step);
                reduction::slots_increase(begin as int, 1, lhs as int, nprobe as int);
            }
            if nprobe - lhs <= step || nprobe - lhs - step <= step {
                lhs = nprobe;
            } else {
                lhs = lhs + step + step;
                proof {
                    assert((2 * (m + 1)) * step == (2 * m) * step + step + step)
                        by (nonlinear_arith);
                    m = m + 1;
                }
            }
        }
    }

    /// Merge the `nprobe` candidate lists associated with a specific token index
    ///
    /// The rounds alternate between the two buffers. The token's merged list
    /// ends up in its first slot: of `views` where the returned number of
    /// rounds is even, of `views_buffer` where it is odd.
    pub fn merge_candidates_nprobe<S: Score>(
        views: &mut Vec<AnnotatedStrideView<S>>,
        views_buffer: &mut Vec<AnnotatedStrideView<S>>,
        nprobe: usize,
        query_token_idx: usize,
    ) -> (num_iterations: usize)
        requires
            views_wf(old(views)@),
            views_wf(old(views_buffer)@),
            query_token_idx * nprobe + nprobe <= old(views)@.len(),
            query_token_idx * nprobe + nprobe <= old(views_buffer)@.len(),
            reduction::span(contents(old(views)@), query_token_idx * nprobe, 1, 0, nprobe as int)
                <= usize::MAX,
        ensures
            views_wf(final(views)@),
            views_wf(final(views_buffer)@),
            num_iterations == reduction::num_rounds(nprobe as int, 1),
            (contents(final(views)@), contents(final(views_buffer)@)) == reduction::settled(
                contents(old(views)@),
                contents(old(views_buffer)@),
                query_token_idx * nprobe,
                1,
                nprobe as int,
                1,
                reduction::max_combiners(),
            ),
            ({
                let rooms = reduction::settled_rooms(
                    contents(old(views)@),
                    contents(old(views_buffer)@),
                    query_token_idx * nprobe,
                    1,
                    nprobe as int,
                    1,
                    reduction::max_combiners(),
                );
                &&& rooms_kept(old(views)@, final(views)@, rooms.0)
                &&& rooms_kept(old(views_buffer)@, final(views_buffer)@, rooms.1)
            }),
    {
        let mut num_iterations: usize = 0;
        if nprobe == 0 {
            return 0;
        }
        assert(query_token_idx * nprobe + nprobe <= views.len());
        assert(query_token_idx * nprobe >= 0) by (nonlinear_arith);
        let begin: usize = query_token_idx * nprobe;
        let ghost lists = contents(views@);
        let ghost goal = reduction::reduce_rounds(
            contents(views@),
            contents(views_buffer@),
            begin as int,
            1,
            nprobe as int,
            1,
            reduction::max_combiners(),
        );
        let ghost mut view_rooms = reduction::no_rooms(views@.len());
        let ghost mut buffer_rooms = reduction::no_rooms(views_buffer@.len());
        let ghost goal_rooms = reduction::rounds_rooms(
            contents(views@),
            contents(views_buffer@),
            view_rooms,
            buffer_rooms,
            begin as int,
            1,
            nprobe as int,
            1,
            reduction::max_combiners(),
        );
        let mut step: usize = 1;
        proof {
            assert(reduction::bounded(lists, lists, begin as int, 1, nprobe as int, 1)) by {
                assert forall|m: int|
                    #![trigger lists[begin + (m * 1) * 1]]
                    0 <= m && m * 1 < nprobe implies lists[begin + (m * 1) * 1].len() <= reduction::span(
                    lists,
                    begin as int,
                    1,
                    m * 1,
                    if m * 1 + 1 < nprobe {
                        m * 1 + 1
                    } else {
                        nprobe as int
                    },
                ) by {
                    reveal_with_fuel(reduction::span, 2);
                }
            }
        }
        while step < nprobe
            invariant
                views_wf(views@),
                views_wf(views_buffer@),
                views@.len() == old(views)@.len(),
                views_buffer@.len() == old(views_buffer)@.len(),
                begin + nprobe <= views@.len(),
                begin + nprobe <= views_buffer@.len(),
                0 < step,
                0 < nprobe,
                num_iterations < step,
                num_iterations + reduction::num_rounds(nprobe as int, step as int) == reduction::num_rounds(
                    nprobe as int,
                    1,
                ),
                reduction::span(lists, begin as int, 1, 0, nprobe as int) <= usize::MAX,
                rooms_so_far(old(views)@, views@, view_rooms, false),
                rooms_so_far(old(views_buffer)@, views_buffer@, buffer_rooms, num_iterations == 0),
                ({
                    let (cur, other) = if num_iterations % 2 == 0 {
                        (contents(views@), contents(views_buffer@))
                    } else {
                        (contents(views_buffer@), contents(views@))
                    };
                    let (cur_rooms, other_rooms) = if num_iterations % 2 == 0 {
                        (view_rooms, buffer_rooms)
                    } else {
                        (buffer_rooms, view_rooms)
                    };
                    &&& step < nprobe && num_iterations > 0 ==> reduction::outgrown(
                        other,
                        cur,
                        begin as int,
                        1,
                        nprobe as int,
                        step as int,
                        0,
                    )
                    &&& goal_rooms == reduction::rounds_rooms(
                        cur,
                        other,
                        cur_rooms,
                        other_rooms,
                        begin as int,
                        1,
                        nprobe as int,
                        step as int,
                        reduction::max_combiners(),
                    )
                    &&& step < nprobe ==> reduction::bounded(
                        cur,
                        lists,
                        begin as int,
                        1,
                        nprobe as int,
                        step as int,
                    )
                    &&& goal == reduction::reduce_rounds(
                        cur,
                        other,
                        begin as int,
                        1,
                        nprobe as int,
                        step as int,
                        reduction::max_combiners(),
                    )
                }),
            decreases nprobe - step,
        {
            let ghost (cur, other) = if num_iterations % 2 == 0 {
                (contents(views@), contents(views_buffer@))
            } else {
                (contents(views_buffer@), contents(views@))
            };
            let ghost (view_slots, buffer_slots) = (views@, views_buffer@);
            if num_iterations % 2 == 0 {
                Self::nprobe_round(views, views_buffer, begin, nprobe, step, Ghost(lists));
            } else {
                Self::nprobe_round(views_buffer, views, begin, nprobe, step, Ghost(lists));
            }
            proof {
                reduction::round_bounded(
                    cur,
                    other,
                    lists,
                    begin as int,
                    1,
                    nprobe as int,
                    step as int,
                    reduction::max_combiners(),
                );
                reduction::round_outgrows(
                    cur,
                    other,
                    begin as int,
                    1,
                    nprobe as int,
                    step as int,
                    reduction::max_combiners(),
                );
                reveal_with_fuel(reduction::num_rounds, 2);
                reveal_with_fuel(reduction::reduce_rounds, 2);
                reveal_with_fuel(reduction::rounds_rooms, 2);
                if num_iterations % 2 == 0 {
                    round_keeps_rooms(
                        old(views_buffer)@,
                        view_slots,
                        buffer_slots,
                        views_buffer@,
                        buffer_rooms,
                        num_iterations == 0,
                        begin as int,
                        1,
                        nprobe as int,
                        step as int,
                        reduction::max_combiners(),
                    );
                    buffer_rooms = reduction::round_rooms(
                        cur,
                        buffer_rooms,
                        begin as int,
                        1,
                        nprobe as int,
                        step as int,
                        0,
                    );
                } else {
                    round_keeps_rooms(
                        old(views)@,
                        buffer_slots,
                        view_slots,
                        views@,
                        view_rooms,
                        false,
                        begin as int,
                        1,
                        nprobe as int,
                        step as int,
                        reduction::max_combiners(),
                    );
                    view_rooms = reduction::round_rooms(
                        cur,
                        view_rooms,
                        begin as int,
                        1,
                        nprobe as int,
                        step as int,
                        0,
                    );
                }
            }
            num_iterations += 1;
            if step >= nprobe - step {
                step = nprobe;
            } else {
                step = step + step;
            }
        }
        num_iterations
    }

    /// One round over the tokens' lists.
    fn token_round<S: Score>(
        src: &Vec<AnnotatedStrideView<S>>,
        dst: &mut Vec<AnnotatedStrideView<S>>,
        nprobe: usize,
        prefix: &Vec<S>,
        num_tokens: usize,
        step: usize,
        Ghost(mse): Ghost<Seq<S>>,
        Ghost(lists): Ghost<Seq<Seq<(i64, S)>>>,
    )
        requires
            views_wf(src@),
            views_wf(old(dst)@),
            0 < step < num_tokens,
            0 < nprobe,
            (num_tokens - 1) * nprobe < src@.len(),
            (num_tokens - 1) * nprobe < old(dst)@.len(),
            prefix@.len() == num_tokens + 1,
            forall|i: int| 0 <= i <= num_tokens ==> prefix@[i] == reduction::mse_prefix(mse, i),
            reduction::bounded(contents(src@), lists, 0, nprobe as int, num_tokens as int, step as int),
            reduction::span(lists, 0, nprobe as int, 0, num_tokens as int) <= usize::MAX,
        ensures
            views_wf(final(dst)@),
            contents(final(dst)@) == reduction::reduce_round(
                contents(src@),
                contents(old(dst)@),
                0,
                nprobe as int,
                num_tokens as int,
                step as int,
                0,
                reduction::mse_combiners(mse, num_tokens as int),
            ),
            final(dst)@.len() == old(dst)@.len(),
            rooms_kept(
                old(dst)@,
                final(dst)@,
                reduction::round_rooms(
                    contents(src@),
                    reduction::no_rooms(old(dst)@.len()),
                    0,
                    nprobe as int,
                    num_tokens as int,
                    step as int,
                    0,
                ),
            ),
    {
        let mut lhs: usize = 0;
        let ghost comb = reduction::mse_combiners(mse, num_tokens as int);
        let ghost goal = reduction::reduce_round(
            contents(src@),
            contents(dst@),
            0,
            nprobe as int,
            num_tokens as int,
            step as int,
            0,
            comb,
        );
        let ghost goal_rooms = reduction::round_rooms(
            contents(src@),
            reduction::no_rooms(dst@.len()),
            0,
            nprobe as int,
            num_tokens as int,
            step as int,
            0,
        );
        let ghost mut rooms: Seq<nat> = reduction::no_rooms(dst@.len());
        let ghost mut m: int = 0;
        assert((num_tokens - 1) * nprobe < src.len());
        while lhs < num_tokens
            invariant
                views_wf(src@),
                views_wf(dst@),
                0 < step < num_tokens,
                0 < nprobe,
                (num_tokens - 1) * nprobe < usize::MAX,
                (num_tokens - 1) * nprobe < src@.len(),
                (num_tokens - 1) * nprobe < dst@.len(),
                dst@.len() == old(dst)@.len(),
                prefix@.len() == num_tokens + 1,
                forall|i: int| 0 <= i <= num_tokens ==> prefix@[i] == reduction::mse_prefix(mse, i),
                reduction::bounded(contents(src@), lists, 0, nprobe as int, num_tokens as int, step as int),
                reduction::span(lists, 0, nprobe as int, 0, num_tokens as int) <= usize::MAX,
                comb == reduction::mse_combiners(mse, num_tokens as int),
                lhs <= num_tokens,
                m >= 0,
                lhs < num_tokens ==> lhs == (2 * m) * step,
                goal == reduction::reduce_round(
                    contents(src@),
                    contents(dst@),
                    0,
                    nprobe as int,
                    num_tokens as int,
                    step as int,
                    lhs as int,
                    comb,
                ),
                rooms_kept(old(dst)@, dst@, rooms),
                forall|i: int| lhs * nprobe <= i < dst@.len() ==> #[trigger] dst@[i] == old(dst)@[i],
                forall|i: int| lhs * nprobe <= i < rooms.len() ==> #[trigger] rooms[i] == 0,
                goal_rooms == reduction::round_rooms(
                    contents(src@),
                    rooms,
                    0,
                    nprobe as int,
                    num_tokens as int,
                    step as int,
                    lhs as int,
                ),
            decreases num_tokens - lhs,
        {
            let ghost before = contents(dst@);
            let ghost slots = dst@;
            let ghost value = reduction::paired(
                contents(src@),
                0,
                nprobe as int,
                num_tokens as int,
                step as int,
                lhs as int,
                comb,
            );
            proof {
                reduction::slots_increase(0, nprobe as int, lhs as int, num_tokens - 1);
            }
            let slot: usize = lhs * nprobe;
            if step < num_tokens - lhs {
                let rhs: usize = lhs + step;
                proof {
                    let cur = contents(src@);
                    reduction::slots_increase(0, nprobe as int, rhs as int, num_tokens - 1);
                    assert((2 * m + 1) * step == rhs) by (nonlinear_arith)
                        requires
                            lhs == (2 * m) * step,
                            rhs == lhs + step,
                    ;
                    let top = if rhs + step < num_tokens {
                        rhs + step
                    } else {
                        num_tokens as int
                    };
                    assert(cur[0 + ((2 * m) * step) * nprobe].len() == src@[lhs * nprobe].size);
                    assert(cur[0 + ((2 * m + 1) * step) * nprobe].len() == src@[rhs
                        * nprobe].size);
                    let n = num_tokens as int;
                    reduction::span_splits(lists, 0, nprobe as int, 0, lhs as int, n);
                    reduction::span_splits(lists, 0, nprobe as int, lhs as int, rhs as int, n);
                    reduction::span_splits(lists, 0, nprobe as int, rhs as int, top, n);
                }
                // Calculate MSE values using prefix sums
                let end: usize = if step < num_tokens - rhs {
                    rhs + step
                } else {
                    num_tokens
                };
                let lhs_mse: S = prefix[rhs].minus(prefix[lhs]);
                let rhs_mse: S = prefix[end].minus(prefix[rhs]);
                let combiner = ReduceSumMseCombiner::new(lhs_mse, rhs_mse);
                assert(combiner == comb(lhs as int, step as int));
                Self::merge_candidate_strides_with_combiner(
                    &src[slot],
                    &src[rhs * nprobe],
                    &mut dst[slot],
                    &combiner,
                );
            } else {
                Self::copy_candidate_stride(&src[slot], &mut dst[slot]);
            }
            proof {
                assert(contents(dst@) =~= before.update(lhs * nprobe, value));
                reveal_with_fuel(reduction::reduce_round, 2);
                reveal_with_fuel(reduction::round_rooms, 2);
                let at = lhs * nprobe;
                let room = reduction::paired_room(
                    contents(src@),
                    0,
                    nprobe as int,
                    num_tokens as int,
                    step as int,
                    lhs as int,
                );
                let given = rooms;
                assert(room_kept(slots[at], dst@[at], dst@[at].size as int, room));
                rooms = rooms.update(at, reduction::longer(rooms[at], room));
                assert(rooms_kept(old(dst)@, dst@, rooms)) by {
                    assert forall|i: int| 0 <= i < dst@.len() implies room_kept(
                        old(dst)@[i],
                        #[trigger] dst@[i],
                        dst@[i].size as int,
                        rooms[i],
                    ) by {
                        if i != at {
                            assert(dst@[i] == slots[i]);
                            assert(rooms[i] == given[i]);
                        }
                    }
                }
                assert forall|i: int| at < i < dst@.len() implies #[trigger] dst@[i]
                    == old(dst)@[i] by {
                    assert(dst@[i] == slots[i]);
                }
                assert forall|i: int| at < i < rooms.len() implies #[trigger] rooms[i] == 0 by {
                    assert(rooms[i] == given[i]);
                }
                reduction::slots_increase(0, nprobe as int, lhs as int, lhs + 2 * step);
                reduction::slots_increase(0, nprobe as int, lhs as int, num_tokens as int);
            }
            if num_tokens - lhs <= step || num_tokens - lhs - step <= step {
                lhs = num_tokens;
            } else {
                lhs = lhs + step + step;
                proof {
                    assert((2 * (m + 1)) * step == (2 * m) * step + step + step)
                        by (nonlinear_arith);
                    m = m + 1;
                }
            }
        }
    }

    /// Merge the tokens' strides of scores into a single stride of document-level scores
    ///
    /// The merged list ends up in the first slot of `views`.
    pub fn merge_candidates_tokens<S: Score>(
        views: &mut Vec<AnnotatedStrideView<S>>,
        views_buffer: &mut Vec<AnnotatedStrideView<S>>,
        nprobe: usize,
        mse_estimates: &Vec<S>,
        num_tokens: usize,
    )
        requires
            views_wf(old(views)@),
            views_wf(old(views_buffer)@),
            0 < nprobe,
            num_tokens < usize::MAX,
            (num_tokens - 1) * nprobe < old(views)@.len(),
            (num_tokens - 1) * nprobe < old(views_buffer)@.len(),
            reduction::span(contents(old(views)@), 0, nprobe as int, 0, num_tokens as int) <= usize::MAX,
        ensures
            views_wf(final(views)@),
            views_wf(final(views_buffer)@),
            (contents(final(views)@), contents(final(views_buffer)@)) == reduction::reduce_rounds(
                contents(old(views)@),
                contents(old(views_buffer)@),
                0,
                nprobe as int,
                num_tokens as int,
                1,
                reduction::mse_combiners(mse_estimates@, num_tokens as int),
            ),
            ({
                let rooms = reduction::rounds_rooms(
                    contents(old(views)@),
                    contents(old(views_buffer)@),
                    reduction::no_rooms(old(views)@.len()),
                    reduction::no_rooms(old(views_buffer)@.len()),
                    0,
                    nprobe as int,
                    num_tokens as int,
                    1,
                    reduction::mse_combiners(mse_estimates@, num_tokens as int),
                );
                // The two buffers change places with every round.
                let (slots, buffer_slots) = if reduction::num_rounds(num_tokens as int, 1) % 2 == 0 {
                    (old(views)@, old(views_buffer)@)
                } else {
                    (old(views_buffer)@, old(views)@)
                };
                &&& rooms_kept(slots, final(views)@, rooms.0)
                &&& rooms_kept(buffer_slots, final(views_buffer)@, rooms.1)
            }),
    {
        // Compute MSE prefix sums
        let mut prefix: Vec<S> = Vec::new();
        prefix.push(S::zero());
        let mut i: usize = 0;
        while i < num_tokens
            invariant
                i <= num_tokens,
                prefix@.len() == i + 1,
                forall|j: int| 0 <= j <= i ==> prefix@[j] == reduction::mse_prefix(mse_estimates@, j),
            decreases num_tokens - i,
        {
            let estimate: S = if i < mse_estimates.len() {
                mse_estimates[i]
            } else {
                S::zero()
            };
            let sum: S = prefix[i].plus(estimate);
            prefix.push(sum);
            i += 1;
        }

        let ghost lists = contents(views@);
        let ghost comb = reduction::mse_combiners(mse_estimates@, num_tokens as int);
        let ghost n = num_tokens as int;
        let ghost stride = nprobe as int;
        let ghost goal = reduction::reduce_rounds(
            contents(views@),
            contents(views_buffer@),
            0,
            stride,
            n,
            1,
            comb,
        );
        let ghost mut base = views@;
        let ghost mut buffer_base = views_buffer@;
        let ghost mut rooms = reduction::no_rooms(views@.len());
        let ghost mut buffer_rooms = reduction::no_rooms(views_buffer@.len());
        let ghost mut rounds: nat = 0;
        let ghost goal_rooms = reduction::rounds_rooms(
            contents(views@),
            contents(views_buffer@),
            rooms,
            buffer_rooms,
            0,
            stride,
            n,
            1,
            comb,
        );
        let mut step: usize = 1;
        proof {
            assert forall|m: int|
                #![trigger lists[0 + (m * 1) * stride]]
                0 <= m && m * 1 < n implies lists[0 + (m * 1) * stride].len() <= reduction::span(
                lists,
                0,
                stride,
                m * 1,
                if m * 1 + 1 < n {
                    m * 1 + 1
                } else {
                    n
                },
            ) by {
                reveal_with_fuel(reduction::span, 2);
            }
        }
        while step < num_tokens
            invariant
                views_wf(views@),
                views_wf(views_buffer@),
                0 < step,
                0 < nprobe,
                n == num_tokens,
                stride == nprobe,
                (num_tokens - 1) * nprobe < views@.len(),
                (num_tokens - 1) * nprobe < views_buffer@.len(),
                prefix@.len() == num_tokens + 1,
                forall|j: int|
                    0 <= j <= num_tokens ==> prefix@[j] == reduction::mse_prefix(mse_estimates@, j),
                reduction::span(lists, 0, stride, 0, n) <= usize::MAX,
                comb == reduction::mse_combiners(mse_estimates@, n),
                step < num_tokens ==> reduction::bounded(contents(views@), lists, 0, stride, n, step as int),
                goal == reduction::reduce_rounds(
                    contents(views@),
                    contents(views_buffer@),
                    0,
                    stride,
                    n,
                    step as int,
                    comb,
                ),
                rooms_so_far(base, views@, rooms, false),
                rooms_so_far(buffer_base, views_buffer@, buffer_rooms, rounds == 0),
                (base, buffer_base) == if rounds % 2 == 0 {
                    (old(views)@, old(views_buffer)@)
                } else {
                    (old(views_buffer)@, old(views)@)
                },
                rounds + reduction::num_rounds(n, step as int) == reduction::num_rounds(n, 1),
                step < num_tokens && rounds > 0 ==> reduction::outgrown(
                    contents(views_buffer@),
                    contents(views@),
                    0,
                    stride,
                    n,
                    step as int,
                    0,
                ),
                goal_rooms == reduction::rounds_rooms(
                    contents(views@),
                    contents(views_buffer@),
                    rooms,
                    buffer_rooms,
                    0,
                    stride,
                    n,
                    step as int,
                    comb,
                ),
            decreases num_tokens - step,
        {
            let ghost cur = contents(views@);
            let ghost other = contents(views_buffer@);
            let ghost (slots, buffer_slots) = (views@, views_buffer@);
            Self::token_round(
                views,
                views_buffer,
                nprobe,
                &prefix,
                num_tokens,
                step,
                Ghost(mse_estimates@),
                Ghost(lists),
            );
            std::mem::swap(views, views_buffer);
            proof {
                reduction::round_bounded(cur, other, lists, 0, stride, n, step as int, comb);
                reduction::round_outgrows(cur, other, 0, stride, n, step as int, comb);
                round_keeps_rooms(
                    buffer_base,
                    slots,
                    buffer_slots,
                    views@,
                    buffer_rooms,
                    rounds == 0,
                    0,
                    stride,
                    n,
                    step as int,
                    comb,
                );
                reveal_with_fuel(reduction::reduce_rounds, 2);
                reveal_with_fuel(reduction::rounds_rooms, 2);
                reveal_with_fuel(reduction::num_rounds, 2);
                let written = reduction::round_rooms(cur, buffer_rooms, 0, stride, n, step as int, 0);
                buffer_rooms = rooms;
                rooms = written;
                let swapped = base;
                base = buffer_base;
                buffer_base = swapped;
                rounds = rounds + 1;
            }
            if step >= num_tokens - step {
                step = num_tokens;
            } else {
                step = step + step;
            }
        }
    }

    /// The strides of the cells, cut out of the concatenated candidates.
    fn cell_views<S: Score>(
        num_cells: usize,
        sizes: &Vec<i32>,
        pids: &Vec<i64>,
        scores: &Vec<S>,
    ) -> (views: Vec<AnnotatedStrideView<S>>)
        requires
            num_cells <= sizes@.len(),
            forall|c: int| 0 <= c < num_cells ==> 0 <= #[trigger] sizes@[c],
            cell_offset(sizes@, num_cells as int) <= pids@.len(),
            cell_offset(sizes@, num_cells as int) <= scores@.len(),
        ensures
            views_wf(views@),
            contents(views@) == cells(num_cells as nat, sizes@, pids@, scores@),
    {
        let mut views: Vec<AnnotatedStrideView<S>> = Vec::new();
        let mut offset: usize = 0;
        let mut i: usize = 0;
        assert(cell_offset(sizes@, num_cells as int) <= pids.len());
        while i < num_cells
            invariant
                i <= num_cells,
                num_cells <= sizes@.len(),
                forall|c: int| 0 <= c < num_cells ==> 0 <= #[trigger] sizes@[c],
                cell_offset(sizes@, num_cells as int) <= usize::MAX,
                cell_offset(sizes@, num_cells as int) <= pids@.len(),
                cell_offset(sizes@, num_cells as int) <= scores@.len(),
                offset == cell_offset(sizes@, i as int),
                views@.len() == i,
                views_wf(views@),
                forall|c: int|
                    0 <= c < i ==> (#[trigger] views@[c]).entries() == cell(
                        sizes@,
                        pids@,
                        scores@,
                        c,
                    ),
            decreases num_cells - i,
        {
            let size: usize = sizes[i] as usize;
            proof {
                offsets_increase(sizes@, i + 1, num_cells as int);
            }
            let end: usize = offset + size;
            let mut cell_pids: Vec<i64> = Vec::new();
            let mut cell_scores: Vec<S> = Vec::new();
            let mut j: usize = offset;
            while j < end
                invariant
                    offset <= j <= end,
                    end <= pids@.len(),
                    end <= scores@.len(),
                    cell_pids@ == pids@.subrange(offset as int, j as int),
                    cell_scores@ == scores@.subrange(offset as int, j as int),
                decreases end - j,
            {
                cell_pids.push(pids[j]);
                cell_scores.push(scores[j]);
                j += 1;
            }
            let view = AnnotatedStrideView::from_data(cell_pids, cell_scores, size);
            assert(view.entries() =~= cell(sizes@, pids@, scores@, i as int));
            views.push(view);
            offset = end;
            i += 1;
        }
        assert(contents(views@) =~= cells(num_cells as nat, sizes@, pids@, scores@));
        views
    }

    /// Merges the cells' candidates on the host.
    fn merge_candidate_scores_host<S: Score>(
        &self,
        num_cells: usize,
        candidate_sizes: &Vec<i32>,
        candidate_pids: &Vec<i64>,
        candidate_scores: &Vec<S>,
        mse_estimates: &Vec<S>,
        nprobe: usize,
        k: usize,
    ) -> (r: (Vec<i64>, Vec<S>))
        requires
            0 < nprobe,
            0 < num_cells <= candidate_sizes@.len(),
            num_cells < usize::MAX,
            num_cells % nprobe == 0,
            forall|c: int| 0 <= c < num_cells ==> 0 <= #[trigger] candidate_sizes@[c],
            cell_offset(candidate_sizes@, num_cells as int) <= candidate_pids@.len(),
            cell_offset(candidate_sizes@, num_cells as int) <= candidate_scores@.len(),
        ensures
            self.host_result(
                cells(
                    num_cells as nat,
                    candidate_sizes@,
                    candidate_pids@,
                    candidate_scores@,
                ),
                mse_estimates@,
                nprobe as int,
                k as int,
                r.0@,
                r.1@,
            ),
    {
        let mut views = Self::cell_views(
            num_cells,
            candidate_sizes,
            candidate_pids,
            candidate_scores,
        );
        let ghost original = contents(views@);
        let mut views_buffer: Vec<AnnotatedStrideView<S>> = Vec::new();
        let mut i: usize = 0;
        while i < num_cells
            invariant
                i <= num_cells,
                views_buffer@.len() == i,
                views_wf(views_buffer@),
            decreases num_cells - i,
        {
            views_buffer.push(AnnotatedStrideView::with_capacity(0));
            i += 1;
        }

        // Merge candidates for each token
        let num_tokens: usize = num_cells / nprobe;
        let ghost total = cell_offset(candidate_sizes@, num_cells as int);
        let ghost odd = reduction::num_rounds(nprobe as int, 1) % 2 != 0;
        proof {
            vstd::arithmetic::div_mod::lemma_fundamental_div_mod(num_cells as int, nprobe as int);
            assert(num_tokens * nprobe == num_cells) by (nonlinear_arith)
                requires
                    num_cells == nprobe * num_tokens,
            ;
            assert(total <= candidate_pids.len());
            assert(views@.len() == original.len());
        }
        let mut last_num_iterations: usize = 0;
        let mut token: usize = 0;
        while token < num_tokens
            invariant
                0 < nprobe,
                num_tokens * nprobe == num_cells,
                num_cells <= candidate_sizes@.len(),
                forall|c: int|
                    0 <= c < num_cells ==> 0 <= #[trigger] candidate_sizes@[c],
                total == cell_offset(candidate_sizes@, num_cells as int),
                total <= usize::MAX,
                original == cells(
                    num_cells as nat,
                    candidate_sizes@,
                    candidate_pids@,
                    candidate_scores@,
                ),
                token <= num_tokens,
                views_wf(views@),
                views_wf(views_buffer@),
                views@.len() == num_cells,
                views_buffer@.len() == num_cells,
                odd == (reduction::num_rounds(nprobe as int, 1) % 2 != 0),
                0 < token ==> last_num_iterations == reduction::num_rounds(nprobe as int, 1),
                forall|c: int|
                    token * nprobe <= c < num_cells ==> #[trigger] contents(views@)[c]
                        == original[c],
                forall|t: int|
                    #![trigger contents(views@)[t * nprobe]]
                    #![trigger contents(views_buffer@)[t * nprobe]]
                    0 <= t < token ==> (if odd {
                        contents(views_buffer@)[t * nprobe]
                    } else {
                        contents(views@)[t * nprobe]
                    }) == token_list(original, nprobe as int, t),
            decreases num_tokens - token,
        {
            let ghost cur = contents(views@);
            let ghost other = contents(views_buffer@);
            let ghost begin = token * nprobe;
            let ghost np = nprobe as int;
            proof {
                reduction::slots_increase(0, np, token as int, num_tokens - 1);
                reduction::slots_increase(0, np, token + 1, num_tokens as int);
                assert((token + 1) * nprobe == begin + nprobe) by (nonlinear_arith)
                    requires
                        begin == token * nprobe,
                ;
                reduction::span_same(cur, begin, original, begin, 1, 0, np);
                cells_span(
                    num_cells as nat,
                    candidate_sizes@,
                    candidate_pids@,
                    candidate_scores@,
                    begin,
                    np,
                );
                offsets_increase(candidate_sizes@, begin + np, num_cells as int);
                offsets_increase(candidate_sizes@, 0, begin);
            }
            last_num_iterations =
            Self::merge_candidates_nprobe(&mut views, &mut views_buffer, nprobe, token);
            proof {
                let comb = reduction::max_combiners();
                reduction::rounds_give_tree(cur, other, begin, 1, np, comb);
                reduction::rounds_outside(cur, other, begin, 1, np, 1, comb);
                reduction::tree_same(
                    cur,
                    begin,
                    1,
                    original,
                    begin,
                    1,
                    np,
                    0,
                    reduction::top_step(np, 1),
                    comb,
                );
                let (a, b) = (contents(views@), contents(views_buffer@));
                assert forall|t: int|
                    #![trigger a[t * nprobe]]
                    #![trigger b[t * nprobe]]
                    0 <= t < token + 1 implies (if odd {
                    b[t * nprobe]
                } else {
                    a[t * nprobe]
                }) == token_list(original, np, t) by {
                    if t < token {
                        reduction::slots_increase(0, np, t, token as int);
                        assert(cur[t * nprobe] == cur[t * nprobe]);
                        assert(other[t * nprobe] == other[t * nprobe]);
                    }
                }
                assert forall|c: int| (token + 1) * nprobe <= c < num_cells implies #[trigger] a[c]
                    == original[c] by {
                    assert(cur[c] == original[c]);
                }
            }
            token += 1;
        }

        // If we performed an odd number of iterations, the scratch buffer contains the result
        if last_num_iterations % 2 != 0 {
            std::mem::swap(&mut views, &mut views_buffer);
        }
        let ghost lists = contents(views@);
        let ghost per_token = Seq::new(
            num_tokens as nat,
            |t: int| token_list(original, nprobe as int, t),
        );
        let ghost comb = reduction::mse_combiners(mse_estimates@, num_tokens as int);
        proof {
            assert(0 < num_tokens) by (nonlinear_arith)
                requires
                    num_tokens * nprobe == num_cells,
                    0 < num_cells,
            ;
            assert forall|t: int| 0 <= t < num_tokens implies #[trigger] lists[t * nprobe]
                == token_list(original, nprobe as int, t) by {}
            token_lists_span(
                lists,
                num_cells as nat,
                candidate_sizes@,
                candidate_pids@,
                candidate_scores@,
                nprobe as int,
                num_tokens as int,
            );
            assert((num_tokens - 1) * nprobe < num_cells) by (nonlinear_arith)
                requires
                    num_tokens * nprobe == num_cells,
                    0 < nprobe,
            ;
            assert(num_tokens <= num_cells) by (nonlinear_arith)
                requires
                    num_tokens * nprobe == num_cells,
                    0 < nprobe,
            ;
            reduction::rounds_give_tree(
                lists,
                contents(views_buffer@),
                0,
                nprobe as int,
                num_tokens as int,
                comb,
            );
            assert forall|l: int|
                #![trigger lists[0 + l * nprobe]]
                0 <= l < num_tokens implies lists[0 + l * nprobe] == per_token[0 + l * 1] by {
                assert(lists[l * nprobe] == token_list(original, nprobe as int, l));
            }
            reduction::tree_same(
                lists,
                0,
                nprobe as int,
                per_token,
                0,
                1,
                num_tokens as int,
                0,
                reduction::top_step(num_tokens as int, 1),
                comb,
            );
            reduction::rounds_outside(
                lists,
                contents(views_buffer@),
                0,
                nprobe as int,
                num_tokens as int,
                1,
                comb,
            );
        }

        // Merge token-level scores into document-level scores
        Self::merge_candidates_tokens(
            &mut views,
            &mut views_buffer,
            nprobe,
            mse_estimates,
            num_tokens,
        );
        let ghost docs = document_list(
            original,
            mse_estimates@,
            nprobe as int,
            num_tokens as int,
        );
        assert(contents(views@)[0] == docs);
        assert(views@[0].entries() == docs);

        // Get top-k results from the first stride (which contains the final merged results)
        let first = &views[0];
        let capped: usize = if self.config.max_candidates < first.size {
            self.config.max_candidates
        } else {
            first.size
        };
        let budget: usize = if capped < k {
            k
        } else {
            capped
        };
        let top_idx = Self::partial_sort_results(first, budget);

        // Extract the PIDs and scores
        let mut result_pids: Vec<i64> = Vec::new();
        let mut result_scores: Vec<S> = Vec::new();
        let mut i: usize = 0;
        while i < budget
            invariant
                i <= budget,
                first.wf(),
                first.entries() == docs,
                best(docs, top_idx@, budget as int),
                result_pids@ == padded_pids(docs, top_idx@, i as int),
                result_scores@ == padded_scores(docs, top_idx@, i as int),
            decreases budget - i,
        {
            if i < top_idx.len() {
                let idx: usize = top_idx[i];
                assert(idx < docs.len());
                assert(docs[idx as int] == (first.pids@[idx as int], first.scores@[idx as int]));
                result_pids.push(first.pids[idx]);
                result_scores.push(first.scores[idx]);
            } else {
                result_pids.push(0);
                result_scores.push(S::zero());
            }
            assert(result_pids@ =~= padded_pids(docs, top_idx@, i + 1));
            assert(result_scores@ =~= padded_scores(docs, top_idx@, i + 1));
            i += 1;
        }
        proof {
            assert(docs.len() == first.size);
            assert(original.len() as int / nprobe as int == num_tokens);
            assert(budget == result_budget(
                self.config.max_candidates as int,
                docs.len() as int,
                k as int,
            ));
            assert(best(docs, top_idx@, budget as int));
        }
        (result_pids, result_scores)
    }

    /// The positions of the best `num_results` entries, best first
    pub fn partial_sort_results<S: Score>(
        stride: &AnnotatedStrideView<S>,
        num_results: usize,
    ) -> (order: Vec<usize>)
        requires
            stride.wf(),
        ensures
            best(stride.entries(), order@, num_results as int),
    {
        let mut scores: Vec<S> = Vec::new();
        let mut i: usize = 0;
        while i < stride.size
            invariant
                stride.wf(),
                i <= stride.size,
                scores@ == stride.scores@.take(i as int),
            decreases stride.size - i,
        {
            scores.push(stride.scores[i]);
            i += 1;
        }
        assert(scores@ =~= scores_of(stride.entries()));
        ranking::top_positions(scores, num_results)
    }

    /// What the merge on the host gives: the best passages up to the budget,
    /// padded to it.
    pub open spec fn host_result<S: Score>(
        self,
        cells: Seq<Seq<(i64, S)>>,
        mse: Seq<S>,
        nprobe: int,
        k: int,
        pids: Seq<i64>,
        scores: Seq<S>,
    ) -> bool {
        let docs = document_list(cells, mse, nprobe, cells.len() as int / nprobe);
        let budget = result_budget(self.config.max_candidates as int, docs.len() as int, k);
        exists|order: Seq<usize>| #[trigger]
            best(docs, order, budget) && pids == padded_pids(docs, order, budget) && scores
                == padded_scores(docs, order, budget)
    }

    /// What the merge on a CUDA device gives: the best passages up to the budget.
    pub open spec fn cuda_result<S: Score>(
        self,
        cells: Seq<Seq<(i64, S)>>,
        mse: Seq<S>,
        nprobe: int,
        k: int,
        pids: Seq<i64>,
        scores: Seq<S>,
    ) -> bool {
        let hits = grouping::token_hits(cells, nprobe, cells.len() as int);
        let num_tokens = (cells.len() + nprobe - 1) / nprobe;
        exists|docs: Seq<(i64, S)>, order: Seq<usize>|
            {
                &&& #[trigger] grouping::grouped(hits, mse, num_tokens, docs)
                &&& #[trigger] best(
                    docs,
                    order,
                    result_budget(self.config.max_candidates as int, docs.len() as int, k),
                )
                &&& pids == padded_pids(docs, order, order.len() as int)
                &&& scores == padded_scores(docs, order, order.len() as int)
            }
    }

    /// The candidates with their tokens, in the order of the cells.
    fn collect_hits<S: Score>(
        candidate_sizes: &Vec<i32>,
        candidate_pids: &Vec<i64>,
        candidate_scores: &Vec<S>,
        nprobe: usize,
    ) -> (hits: Vec<TokenHit<S>>)
        requires
            0 < nprobe,
            forall|c: int| 0 <= c < candidate_sizes@.len() ==> 0 <= #[trigger] candidate_sizes@[c],
            cell_offset(candidate_sizes@, candidate_sizes@.len() as int) <= candidate_pids@.len(),
            cell_offset(candidate_sizes@, candidate_sizes@.len() as int) <= candidate_scores@.len(),
        ensures
            hits@ == grouping::token_hits(
                cells(
                    candidate_sizes@.len(),
                    candidate_sizes@,
                    candidate_pids@,
                    candidate_scores@,
                ),
                nprobe as int,
                candidate_sizes@.len() as int,
            ),
    {
        let ghost sizes = candidate_sizes@;
        let ghost all = cells(sizes.len(), sizes, candidate_pids@, candidate_scores@);
        let num_cells: usize = candidate_sizes.len();
        let mut hits: Vec<TokenHit<S>> = Vec::new();
        let mut offset: usize = 0;
        let mut i: usize = 0;
        assert(cell_offset(sizes, num_cells as int) <= candidate_pids.len());
        while i < num_cells
            invariant
                0 < nprobe,
                i <= num_cells,
                num_cells == sizes.len(),
                sizes == candidate_sizes@,
                all == cells(sizes.len(), sizes, candidate_pids@, candidate_scores@),
                forall|c: int| 0 <= c < sizes.len() ==> 0 <= #[trigger] sizes[c],
                cell_offset(sizes, num_cells as int) <= usize::MAX,
                cell_offset(sizes, num_cells as int) <= candidate_pids@.len(),
                cell_offset(sizes, num_cells as int) <= candidate_scores@.len(),
                offset == cell_offset(sizes, i as int),
                hits@ == grouping::token_hits(all, nprobe as int, i as int),
            decreases num_cells - i,
        {
            let size: usize = candidate_sizes[i] as usize;
            proof {
                offsets_increase(sizes, i + 1, num_cells as int);
            }
            let token: usize = i / nprobe;
            let ghost before = hits@;
            let ghost own = grouping::cell_hits(all[i as int], token as int);
            let mut j: usize = 0;
            while j < size
                invariant
                    j <= size,
                    i < sizes.len(),
                    size == sizes[i as int],
                    offset == cell_offset(sizes, i as int),
                    offset + size <= usize::MAX,
                    offset + size <= candidate_pids@.len(),
                    offset + size <= candidate_scores@.len(),
                    all == cells(sizes.len(), sizes, candidate_pids@, candidate_scores@),
                    own == grouping::cell_hits(all[i as int], token as int),
                    hits@ == before + own.take(j as int),
                decreases size - j,
            {
                let hit = TokenHit {
                    pid: candidate_pids[offset + j],
                    token,
                    score: candidate_scores[offset + j],
                };
                hits.push(hit);
                assert(all[i as int][j as int] == (
                    candidate_pids@[offset + j],
                    candidate_scores@[offset + j],
                ));
                assert(own[j as int] == hit);
                assert(own.take(j + 1) =~= own.take(j as int).push(hit));
                j += 1;
            }
            assert(own.take(size as int) =~= own);
            offset += size;
            i += 1;
        }
        hits
    }

    /// Merges the cells' candidates by sorting and grouping, as for a CUDA device.
    fn merge_candidate_scores_cuda<S: Score>(
        &self,
        candidate_sizes: &Vec<i32>,
        candidate_pids: &Vec<i64>,
        candidate_scores: &Vec<S>,
        mse_estimates: &Vec<S>,
        nprobe: usize,
        k: usize,
    ) -> (r: (Vec<i64>, Vec<S>))
        requires
            candidate_pids@.len() > 0 ==> cuda_input(
                candidate_sizes@,
                candidate_pids@.len(),
                candidate_scores@.len(),
                nprobe as int,
            ),
        ensures
            candidate_pids@.len() == 0 ==> r.0@.len() == 0 && r.1@.len() == 0,
            candidate_pids@.len() > 0 ==> self.cuda_result(
                cells(
                    candidate_sizes@.len(),
                    candidate_sizes@,
                    candidate_pids@,
                    candidate_scores@,
                ),
                mse_estimates@,
                nprobe as int,
                k as int,
                r.0@,
                r.1@,
            ),
    {
        if candidate_pids.len() == 0 {
            return (Vec::new(), Vec::new());
        }
        let num_cells: usize = candidate_sizes.len();
        assert(num_cells > 0);
        let num_tokens: usize = (num_cells - 1) / nprobe + 1;
        let ghost all = cells(
            candidate_sizes@.len(),
            candidate_sizes@,
            candidate_pids@,
            candidate_scores@,
        );
        proof {
            assert((num_cells + nprobe - 1) / nprobe as int == (num_cells - 1) / nprobe as int + 1)
                by (nonlinear_arith)
                requires
                    nprobe > 0,
                    num_cells > 0,
            ;
        }
        let hits = Self::collect_hits(candidate_sizes, candidate_pids, candidate_scores, nprobe);
        let (pids, totals) = grouping::group_hits(hits, mse_estimates, num_tokens);
        let ghost docs = Seq::new(pids@.len(), |i: int| (pids@[i], totals@[i]));
        let found: usize = pids.len();
        let capped: usize = if self.config.max_candidates < found {
            self.config.max_candidates
        } else {
            found
        };
        let budget: usize = if capped < k {
            k
        } else {
            capped
        };
        let view = AnnotatedStrideView::from_data(pids, totals, found);
        assert(view.entries() =~= docs);
        let top_idx = Self::partial_sort_results(&view, budget);
        let mut top_pids: Vec<i64> = Vec::new();
        let mut top_scores: Vec<S> = Vec::new();
        let mut i: usize = 0;
        while i < top_idx.len()
            invariant
                i <= top_idx@.len(),
                view.wf(),
                view.entries() == docs,
                best(docs, top_idx@, budget as int),
                top_pids@ == padded_pids(docs, top_idx@, i as int),
                top_scores@ == padded_scores(docs, top_idx@, i as int),
            decreases top_idx@.len() - i,
        {
            let idx: usize = top_idx[i];
            assert(idx < docs.len());
            assert(docs[idx as int] == (view.pids@[idx as int], view.scores@[idx as int]));
            top_pids.push(view.pids[idx]);
            top_scores.push(view.scores[idx]);
            assert(top_pids@ =~= padded_pids(docs, top_idx@, i + 1));
            assert(top_scores@ =~= padded_scores(docs, top_idx@, i + 1));
            i += 1;
        }
        proof {
            let ghost_hits = grouping::token_hits(all, nprobe as int, all.len() as int);
            assert(grouping::grouped(ghost_hits, mse_estimates@, num_tokens as int, docs));
            assert(best(
                docs,
                top_idx@,
                result_budget(self.config.max_candidates as int, docs.len() as int, k as int),
            ));
        }
        (top_pids, top_scores)
    }

    /// Merges candidate scores from multiple centroids/sources
    ///
    /// The candidates of a cell lie one after the other, the cells in order,
    /// `nprobe` of them for each query token. On a CUDA device the candidates
    /// are sorted and grouped, elsewhere the cells' lists are merged pairwise.
    pub fn merge_candidate_scores<S: Score>(
        &self,
        capacities: &Vec<i64>,
        candidate_sizes: &Vec<i32>,
        candidate_pids: &Vec<i64>,
        candidate_scores: &Vec<S>,
        mse_estimates: &Vec<S>,
        nprobe: usize,
        k: usize,
    ) -> (r: (Vec<i64>, Vec<S>))
        requires
            self.mergeable(
                capacities@.len(),
                candidate_sizes@,
                candidate_pids@.len(),
                candidate_scores@.len(),
                nprobe as int,
                k as int,
            ),
        ensures
            self.merge_result(
                capacities@.len(),
                candidate_sizes@,
                candidate_pids@,
                candidate_scores@,
                mse_estimates@,
                nprobe as int,
                k as int,
                r.0@,
                r.1@,
            ),
    {
        if self.config.device.is_cuda() {
            return self.merge_candidate_scores_cuda(
                candidate_sizes,
                candidate_pids,
                candidate_scores,
                mse_estimates,
                nprobe,
                k,
            );
        }
        self.merge_candidate_scores_host(
            capacities.len(),
            candidate_sizes,
            candidate_pids,
            candidate_scores,
            mse_estimates,
            nprobe,
            k,
        )
    }

    /// Whether the input can be merged.
    pub fn can_merge(
        &self,
        num_cells: usize,
        sizes: &Vec<i32>,
        num_pids: usize,
        num_scores: usize,
        nprobe: usize,
        k: usize,
    ) -> (r: bool)
        ensures
            r == self.mergeable(
                num_cells as nat,
                sizes@,
                num_pids as nat,
                num_scores as nat,
                nprobe as int,
                k as int,
            ),
    {
        let cuda = self.config.device.is_cuda();
        if cuda && num_pids == 0 {
            return true;
        }
        if nprobe == 0 {
            return false;
        }
        let counted: usize = if cuda {
            sizes.len()
        } else {
            num_cells
        };
        if !cuda && (num_cells > sizes.len() || num_cells == usize::MAX || num_cells % nprobe != 0) {
            return false;
        }
        let mut total: i128 = 0;
        let mut i: usize = 0;
        while i < counted
            invariant
                i <= counted <= sizes@.len(),
                cuda == (self.config.device is Cuda),
                counted == if cuda {
                    sizes@.len() as int
                } else {
                    num_cells as int
                },
                cuda ==> num_pids > 0,
                forall|c: int| 0 <= c < i ==> 0 <= #[trigger] sizes@[c],
                total == cell_offset(sizes@, i as int),
                0 <= total <= i * i32::MAX,
            decreases counted - i,
        {
            if sizes[i] < 0 {
                assert(!(0 <= sizes@[i as int]));
                return false;
            }
            total = total + sizes[i] as i128;
            i += 1;
        }
        if cuda {
            total == num_pids as i128 && num_pids <= num_scores
        } else {
            0 < total && total <= num_pids as i128 && total <= num_scores as i128 && (0 < k || 0
                < self.config.max_candidates)
        }
    }

    /// Input that can be merged. On a CUDA device the sizes account for every
    /// candidate. Elsewhere every token has all its cells, there is a candidate,
    /// and room for a result.
    pub open spec fn mergeable(
        self,
        num_cells: nat,
        sizes: Seq<i32>,
        num_pids: nat,
        num_scores: nat,
        nprobe: int,
        k: int,
    ) -> bool {
        if self.config.device is Cuda {
            num_pids > 0 ==> cuda_input(sizes, num_pids, num_scores, nprobe)
        } else {
            &&& 0 < nprobe
            &&& num_cells <= sizes.len()
            &&& num_cells < usize::MAX
            &&& num_cells % nprobe as nat == 0
            &&& forall|c: int| 0 <= c < num_cells ==> 0 <= #[trigger] sizes[c]
            &&& 0 < cell_offset(sizes, num_cells as int) <= num_pids
            &&& cell_offset(sizes, num_cells as int) <= num_scores
            &&& 0 < k || 0 < self.config.max_candidates
        }
    }

    /// What a merge gives.
    pub open spec fn merge_result<S: Score>(
        self,
        num_cells: nat,
        sizes: Seq<i32>,
        pids: Seq<i64>,
        scores: Seq<S>,
        mse: Seq<S>,
        nprobe: int,
        k: int,
        result_pids: Seq<i64>,
        result_scores: Seq<S>,
    ) -> bool {
        if self.config.device is Cuda {
            if pids.len() == 0 {
                result_pids.len() == 0 && result_scores.len() == 0
            } else {
                self.cuda_result(
                    cells(sizes.len(), sizes, pids, scores),
                    mse,
                    nprobe,
                    k,
                    result_pids,
                    result_scores,
                )
            }
        } else {
            self.host_result(
                cells(num_cells, sizes, pids, scores),
                mse,
                nprobe,
                k,
                result_pids,
                result_scores,
            )
        }
    }
}

/// The sizes account for every candidate.
pub open spec fn cuda_input(
    sizes: Seq<i32>,
    num_pids: nat,
    num_scores: nat,
    nprobe: int,
) -> bool {
    &&& 0 < nprobe
    &&& forall|c: int| 0 <= c < sizes.len() ==> 0 <= #[trigger] sizes[c]
    &&& cell_offset(sizes, sizes.len() as int) == num_pids
    &&& num_pids <= num_scores
}

} // verus!
