//! What a merge promises of its result, in terms of the candidates that go in: how
//! many passages it hands on, which ones, with what scores, and in what order.

use crate::score;
use crate::score::Score;
use crate::search::agreement;
use crate::search::gather;
use crate::search::grouping;
use crate::search::grouping::TokenHit;
use crate::search::merger;
use crate::search::merger::ResultMerger;
use crate::search::ranking;
use crate::search::scorer;
use crate::search::scorer::{ProbedQuery, ShardedWARPScorer, WARPScorer};
use crate::search::scoring;
use crate::search::tombstones;
use crate::utils::types;
use crate::utils::types::{
    Device, DeviceError, DtypeError, Kind, SearchConfig, SearchResult, ShardCellOutput,
};
use vstd::prelude::*;

verus! {

/// The candidates that a merge is given, as they lie in memory.
pub struct Candidates<S> {
    /// How many candidates each cell has
    pub sizes: Seq<i32>,
    /// The passages, cell after cell
    pub pids: Seq<i64>,
    /// Their scores
    pub scores: Seq<S>,
    /// Where the candidates of each cell start, and where those of the last one end
    pub offsets: Seq<int>,
    /// How many cells each query token has
    pub nprobe: int,
}

impl<S> Candidates<S> {
    /// The number of cells.
    pub open spec fn num_cells(self) -> int {
        self.offsets.len() - 1
    }

    /// The number of candidates.
    pub open spec fn total(self) -> int {
        self.offsets[self.num_cells()]
    }

    /// The cells lie one after the other, each token has at least one, and there is
    /// a candidate.
    pub open spec fn wf(self) -> bool {
        &&& 0 < self.nprobe
        &&& 0 < self.num_cells() <= self.sizes.len()
        &&& self.num_cells() <= usize::MAX
        &&& self.offsets[0] == 0
        &&& forall|c: int|
            0 <= c < self.num_cells() ==> 0 <= #[trigger] self.sizes[c] && self.offsets[c + 1]
                == self.offsets[c] + self.sizes[c]
        &&& 0 < self.total() <= self.pids.len()
        &&& self.total() <= self.scores.len()
        &&& self.total() <= usize::MAX
    }

    /// Every token has all its cells, and the passages of each cell ascend.
    pub open spec fn regular(self) -> bool {
        &&& self.num_cells() % self.nprobe == 0
        &&& forall|c: int, i: int, j: int|
            #![trigger self.sizes[c], self.pids[i], self.pids[j]]
            0 <= c < self.num_cells() && self.offsets[c] <= i < j < self.offsets[c + 1]
                ==> self.pids[i] < self.pids[j]
    }

    /// The candidates are those that a merger counts: on a CUDA device all of them,
    /// elsewhere those of the first `num_cells` cells.
    pub open spec fn fit(self, m: ResultMerger, num_cells: nat) -> bool {
        &&& self.wf()
        &&& if m.config.device is Cuda {
            self.num_cells() == self.sizes.len() && self.total() == self.pids.len()
        } else {
            self.num_cells() == num_cells && self.regular()
        }
    }

    /// The passages that are candidates.
    pub open spec fn passages(self) -> Set<i64> {
        self.pids.take(self.total()).to_set()
    }

    /// The first candidate of a token.
    pub open spec fn token_start(self, token: int) -> int {
        self.offsets[token * self.nprobe]
    }

    /// Where the candidates of a token end.
    pub open spec fn token_end(self, token: int) -> int {
        if token * self.nprobe + self.nprobe < self.num_cells() {
            self.offsets[token * self.nprobe + self.nprobe]
        } else {
            self.total()
        }
    }

    /// Candidate `j` is one of the passage for the token.
    pub open spec fn supports(self, pid: i64, token: int, j: int) -> bool {
        self.token_start(token) <= j < self.token_end(token) && self.pids[j] == pid
    }
}

impl<S: Score> Candidates<S> {
    /// `x` is what a token adds to the score of a passage: the largest of its scores
    /// for the token; the token's estimate where it has none; zero where the token
    /// has no estimate.
    pub open spec fn adds(self, mse: Seq<S>, pid: i64, token: int, x: S) -> bool {
        if exists|j: int| #[trigger] self.supports(pid, token, j) {
            &&& exists|j: int| #[trigger] self.supports(pid, token, j) && self.scores[j] == x
            &&& forall|j: int| #[trigger]
                self.supports(pid, token, j) ==> x.spec_larger(self.scores[j]) == x
        } else if token < mse.len() {
            x == mse[token]
        } else {
            x == S::spec_zero()
        }
    }

    /// `parts` are what the tokens add to the score of a passage, one for each token.
    pub open spec fn parts_of(self, mse: Seq<S>, pid: i64, parts: Seq<S>) -> bool {
        &&& (parts.len() - 1) * self.nprobe < self.num_cells() <= parts.len() * self.nprobe
        &&& forall|t: int| 0 <= t < parts.len() ==> self.adds(mse, pid, t, #[trigger] parts[t])
    }
}

/// The sum of scores.
pub open spec fn sum<S: Score>(parts: Seq<S>) -> S {
    parts.fold_left(S::spec_zero(), |a: S, b: S| a.spec_plus(b))
}

proof fn offsets_agree<S>(c: Candidates<S>, i: int)
    requires
        c.wf(),
        0 <= i <= c.num_cells(),
    ensures
        merger::cell_offset(c.sizes, i) == c.offsets[i],
    decreases i,
{
    if 0 < i {
        offsets_agree(c, i - 1);
        assert(0 <= c.sizes[i - 1]);
    }
}

proof fn offsets_ascend<S>(c: Candidates<S>, i: int, j: int)
    requires
        c.wf(),
        0 <= i <= j <= c.num_cells(),
    ensures
        0 <= c.offsets[i] <= c.offsets[j],
    decreases j,
{
    if i < j {
        offsets_ascend(c, i, j - 1);
        assert(0 <= c.sizes[j - 1]);
    } else if 0 < j {
        offsets_ascend(c, i - 1, j - 1);
        assert(0 <= c.sizes[j - 1]);
    }
}

/// The cell that a candidate is in.
proof fn cell_of<S>(c: Candidates<S>, n: int, j: int) -> (i: int)
    requires
        c.wf(),
        0 <= n <= c.num_cells(),
        0 <= j < c.offsets[n],
    ensures
        0 <= i < n,
        c.offsets[i] <= j < c.offsets[i + 1],
    decreases n,
{
    if j < c.offsets[n - 1] {
        cell_of(c, n - 1, j)
    } else {
        n - 1
    }
}

spec fn cells_of<S>(c: Candidates<S>) -> Seq<Seq<(i64, S)>> {
    merger::cells(c.num_cells() as nat, c.sizes, c.pids, c.scores)
}

/// Entry `l` of cell `i` is the candidate at its place.
proof fn cell_entry<S>(c: Candidates<S>, i: int)
    requires
        c.wf(),
        0 <= i < c.num_cells(),
    ensures
        cells_of(c).len() == c.num_cells(),
        cells_of(c)[i].len() == c.sizes[i],
        forall|l: int|
            0 <= l < c.sizes[i] ==> #[trigger] cells_of(c)[i][l] == (
                c.pids[c.offsets[i] + l],
                c.scores[c.offsets[i] + l],
            ),
{
    offsets_agree(c, i);
    assert(0 <= c.sizes[i]);
}

proof fn regular_cells_ascend<S>(c: Candidates<S>)
    requires
        c.wf(),
        c.regular(),
    ensures
        forall|i: int| 0 <= i < cells_of(c).len() ==> scoring::ascending(#[trigger] cells_of(c)[i]),
{
    assert forall|i: int| 0 <= i < cells_of(c).len() implies scoring::ascending(
        #[trigger] cells_of(c)[i],
    ) by {
        cell_entry(c, i);
        let cell = cells_of(c)[i];
        assert forall|a: int, b: int| 0 <= a < b < cell.len() implies (#[trigger] cell[a]).0 < (
        #[trigger] cell[b]).0 by {
            let (x, y) = (c.offsets[i] + a, c.offsets[i] + b);
            assert(0 <= c.sizes[i]);
            assert(c.pids[x] < c.pids[y]);
        }
    }
}

spec fn hits_of<S>(c: Candidates<S>, n: int) -> Seq<TokenHit<S>> {
    grouping::token_hits(cells_of(c), c.nprobe, n)
}

/// The candidates with their tokens stand in their places.
proof fn hits_lie<S>(c: Candidates<S>, n: int)
    requires
        c.wf(),
        0 <= n <= c.num_cells(),
    ensures
        hits_of(c, n).len() == c.offsets[n],
        forall|j: int|
            0 <= j < c.offsets[n] ==> (#[trigger] hits_of(c, n)[j]).pid == c.pids[j] && hits_of(
                c,
                n,
            )[j].score == c.scores[j],
        forall|j: int, i: int|
            #![trigger hits_of(c, n)[j], c.offsets[i]]
            0 <= i < n && c.offsets[i] <= j < c.offsets[i + 1] ==> hits_of(c, n)[j].token == i
                / c.nprobe,
    decreases n,
{
    if 0 < n {
        hits_lie(c, n - 1);
        cell_entry(c, n - 1);
        let own = (n - 1) / c.nprobe;
        assert(0 <= own <= n - 1) by (nonlinear_arith)
            requires
                own == (n - 1) / c.nprobe,
                0 < c.nprobe,
                0 < n,
        ;
        let before = hits_of(c, n - 1);
        let all = hits_of(c, n);
        let cell = grouping::cell_hits(cells_of(c)[n - 1], own);
        assert(all == before + cell);
        assert(0 <= c.sizes[n - 1]);
        assert forall|j: int| 0 <= j < c.offsets[n] implies (#[trigger] all[j]).pid == c.pids[j]
            && all[j].score == c.scores[j] by {
            if j < c.offsets[n - 1] {
                assert(all[j] == before[j]);
            } else {
                let l = j - c.offsets[n - 1];
                assert(all[j] == cell[l]);
                assert(cells_of(c)[n - 1][l] == (c.pids[j], c.scores[j]));
            }
        }
        assert forall|j: int, i: int|
            #![trigger all[j], c.offsets[i]]
            0 <= i < n && c.offsets[i] <= j < c.offsets[i + 1] implies all[j].token == i
            / c.nprobe by {
            offsets_ascend(c, 0, i);
            if i < n - 1 {
                offsets_ascend(c, i + 1, n - 1);
                assert(all[j] == before[j]);
            } else {
                assert(all[j] == cell[j - c.offsets[n - 1]]);
            }
        }
    }
}

/// A candidate is of a token exactly where it lies among the token's candidates.
proof fn token_of_hit<S>(c: Candidates<S>, token: int, j: int)
    requires
        c.wf(),
        0 <= token,
        token * c.nprobe < c.num_cells(),
        0 <= j < c.total(),
    ensures
        hits_of(c, c.num_cells())[j].token == token <==> c.token_start(token) <= j < c.token_end(
            token,
        ),
{
    let n = c.num_cells();
    let i = cell_of(c, n, j);
    hits_lie(c, n);
    let first = token * c.nprobe;
    let last = if first + c.nprobe < n {
        first + c.nprobe
    } else {
        n
    };
    assert(0 <= first) by (nonlinear_arith)
        requires
            first == token * c.nprobe,
            0 <= token,
            0 < c.nprobe,
    ;
    assert(i / c.nprobe == token <==> first <= i < first + c.nprobe) by (nonlinear_arith)
        requires
            first == token * c.nprobe,
            0 < c.nprobe,
    ;
    assert(hits_of(c, n)[j].token == i / c.nprobe);
    if first <= i < first + c.nprobe {
        offsets_ascend(c, first, i);
        offsets_ascend(c, i + 1, last);
    } else if i < first {
        offsets_ascend(c, i + 1, first);
    } else {
        offsets_ascend(c, last, i);
    }
}

/// The best score among candidates absorbs all of them, and is absorbed by what does.
proof fn best_absorbs<S: Score>(hits: Seq<TokenHit<S>>, pid: i64, token: int, x: S)
    requires
        score::exact_larger::<S>(),
    ensures
        agreement::key_best(hits, pid, token) is None <==> forall|i: int|
            0 <= i < hits.len() ==> !agreement::has_key(#[trigger] hits[i], pid, token),
        agreement::key_best(hits, pid, token) matches Some(b) ==> forall|i: int|
            0 <= i < hits.len() && agreement::has_key(#[trigger] hits[i], pid, token)
                ==> b.spec_larger(hits[i].score) == b,
        (forall|i: int|
            0 <= i < hits.len() && agreement::has_key(#[trigger] hits[i], pid, token)
                ==> x.spec_larger(hits[i].score) == x) ==> (agreement::key_best(
            hits,
            pid,
            token,
        ) matches Some(b) ==> x.spec_larger(b) == x),
    decreases hits.len(),
{
    if hits.len() > 0 {
        let head = hits.drop_last();
        let last = hits.last();
        best_absorbs(head, pid, token, x);
        let before = agreement::key_best(head, pid, token);
        let after = agreement::key_best(hits, pid, token);
        assert forall|i: int| 0 <= i < head.len() implies #[trigger] hits[i] == head[i] by {}
        assert(hits[hits.len() - 1] == last);
        if agreement::has_key(last, pid, token) {
            let h = last.score;
            score::larger_repeats(h);
            if let Some(b) = before {
                assert(after == Some(b.spec_larger(h)));
                assert forall|i: int|
                    0 <= i < hits.len() && agreement::has_key(
                        #[trigger] hits[i],
                        pid,
                        token,
                    ) implies b.spec_larger(h).spec_larger(hits[i].score) == b.spec_larger(h) by {
                    let s = hits[i].score;
                    if i < head.len() {
                        assert(head[i] == hits[i]);
                        assert(b.spec_larger(s) == b);
                        score::larger_regroups(h, b, s);
                    } else {
                        score::larger_regroups(b, h, h);
                    }
                }
                score::larger_regroups(x, b, h);
            } else {
                assert(after == Some(h));
            }
        } else {
            assert(after == before);
        }
        if before is Some {
            let i = choose|i: int|
                0 <= i < head.len() && agreement::has_key(#[trigger] head[i], pid, token);
            assert(agreement::has_key(hits[i], pid, token));
        }
        assert((forall|i: int|
            0 <= i < hits.len() ==> !agreement::has_key(#[trigger] hits[i], pid, token))
            ==> forall|i: int|
            0 <= i < head.len() ==> !agreement::has_key(#[trigger] head[i], pid, token)) by {
            assert forall|i: int| 0 <= i < head.len() implies #[trigger] head[i] == hits[i] by {}
        }
        assert((forall|i: int|
            0 <= i < hits.len() && agreement::has_key(#[trigger] hits[i], pid, token)
                ==> x.spec_larger(hits[i].score) == x) ==> forall|i: int|
            0 <= i < head.len() && agreement::has_key(#[trigger] head[i], pid, token)
                ==> x.spec_larger(head[i].score) == x) by {
            assert forall|i: int| 0 <= i < head.len() implies #[trigger] head[i] == hits[i] by {}
        }
    }
}

/// What a token adds, by its candidates with their tokens.
proof fn part_is_best<S: Score>(c: Candidates<S>, mse: Seq<S>, pid: i64, token: int, x: S)
    requires
        score::exact_larger::<S>(),
        c.wf(),
        0 <= token,
        token * c.nprobe < c.num_cells(),
        c.adds(mse, pid, token, x),
    ensures
        match agreement::key_best(hits_of(c, c.num_cells()), pid, token) {
            Some(b) => x == b,
            None => if token < mse.len() {
                x == mse[token]
            } else {
                x == S::spec_zero()
            },
        },
{
    let n = c.num_cells();
    let hits = hits_of(c, n);
    hits_lie(c, n);
    best_absorbs(hits, pid, token, x);
    offsets_ascend(c, 0, n);
    assert forall|j: int| 0 <= j < hits.len() implies (agreement::has_key(
        #[trigger] hits[j],
        pid,
        token,
    ) <==> c.supports(pid, token, j)) by {
        token_of_hit(c, token, j);
    }
    let first = token * c.nprobe;
    let last = if first + c.nprobe < n {
        first + c.nprobe
    } else {
        n
    };
    assert(0 <= first) by (nonlinear_arith)
        requires
            first == token * c.nprobe,
            0 <= token,
            0 < c.nprobe,
    ;
    offsets_ascend(c, 0, first);
    offsets_ascend(c, last, n);
    if exists|j: int| #[trigger] c.supports(pid, token, j) {
        let j = choose|j: int| #[trigger] c.supports(pid, token, j) && c.scores[j] == x;
        assert(agreement::has_key(hits[j], pid, token));
        assert(hits[j].score == x);
        let b = agreement::key_best(hits, pid, token)->Some_0;
        assert(b.spec_larger(x) == b);
        assert forall|i: int|
            0 <= i < hits.len() && agreement::has_key(
                #[trigger] hits[i],
                pid,
                token,
            ) implies x.spec_larger(hits[i].score) == x by {
            assert(c.supports(pid, token, i));
        }
        assert(x.spec_larger(b) == x);
        score::larger_regroups(x, b, b);
    } else {
        assert forall|j: int| 0 <= j < hits.len() implies !agreement::has_key(
            #[trigger] hits[j],
            pid,
            token,
        ) by {
            assert(!c.supports(pid, token, j));
        }
    }
}

/// What the tokens add sums up to the score that the tokens' lists give.
proof fn parts_sum_up<S: Score>(
    c: Candidates<S>,
    lists: Seq<Seq<(i64, S)>>,
    mse: Seq<S>,
    pid: i64,
    parts: Seq<S>,
    n: int,
)
    requires
        score::exact_larger::<S>(),
        c.wf(),
        c.parts_of(mse, pid, parts),
        0 <= n <= parts.len(),
        agreement::lists_match(lists, hits_of(c, c.num_cells()), pid, parts.len() as int),
    ensures
        scoring::token_sum(lists, mse, pid, 0, n) == sum(parts.take(n)),
    decreases n,
{
    if 0 < n {
        parts_sum_up(c, lists, mse, pid, parts, n - 1);
        let t = n - 1;
        assert(parts.take(n).drop_last() =~= parts.take(t));
        assert(t * c.nprobe < c.num_cells()) by (nonlinear_arith)
            requires
                t <= parts.len() - 1,
                (parts.len() - 1) * c.nprobe < c.num_cells(),
                0 < c.nprobe,
        ;
        assert(c.adds(mse, pid, t, parts[t]));
        part_is_best(c, mse, pid, t, parts[t]);
        assert(scoring::lookup(lists[t], pid) == agreement::key_best(
            hits_of(c, c.num_cells()),
            pid,
            t,
        ));
        assert(parts.take(n).last() == parts[t]);
    }
}

/// The list ascends and holds exactly the passages that are candidates.
spec fn lists_passages<S>(c: Candidates<S>, docs: Seq<(i64, S)>) -> bool {
    &&& scoring::ascending(docs)
    &&& forall|i: int| 0 <= i < docs.len() ==> c.passages().contains((#[trigger] docs[i]).0)
    &&& forall|pid: i64| #[trigger]
        c.passages().contains(pid) ==> exists|i: int| 0 <= i < docs.len() && (#[trigger] docs[i]).0 == pid
}

/// There is one entry for each passage.
proof fn one_entry_each<S>(c: Candidates<S>, docs: Seq<(i64, S)>)
    requires
        lists_passages(c, docs),
    ensures
        c.passages().len() == docs.len(),
{
    let pids = docs.map_values(|e: (i64, S)| e.0);
    assert(pids.no_duplicates()) by {
        assert forall|i: int, j: int| 0 <= i < j < pids.len() implies pids[i] != pids[j] by {
            assert(docs[i].0 < docs[j].0);
        }
    }
    assert(pids.to_set() =~= c.passages()) by {
        assert forall|pid: i64| pids.to_set().contains(pid) <==> c.passages().contains(pid) by {
            if c.passages().contains(pid) {
                let i = choose|i: int| 0 <= i < docs.len() && (#[trigger] docs[i]).0 == pid;
                assert(pids[i] == pid);
            }
            if pids.contains(pid) {
                let i = choose|i: int| 0 <= i < pids.len() && pids[i] == pid;
                assert(docs[i].0 == pid);
            }
        }
    }
    pids.unique_seq_to_set();
}

/// A passage is a candidate exactly where a hit has it.
proof fn passages_are_hit<S>(c: Candidates<S>, pid: i64)
    requires
        c.wf(),
    ensures
        c.passages().contains(pid) <==> exists|j: int|
            0 <= j < hits_of(c, c.num_cells()).len() && (#[trigger] hits_of(
                c,
                c.num_cells(),
            )[j]).pid == pid,
{
    let n = c.num_cells();
    hits_lie(c, n);
    let all = c.pids.take(c.total());
    if all.contains(pid) {
        let j = choose|j: int| 0 <= j < all.len() && all[j] == pid;
        assert(hits_of(c, n)[j].pid == pid);
    }
    if exists|j: int| 0 <= j < hits_of(c, n).len() && (#[trigger] hits_of(c, n)[j]).pid == pid {
        let j = choose|j: int|
            0 <= j < hits_of(c, n).len() && (#[trigger] hits_of(c, n)[j]).pid == pid;
        assert(all[j] == pid);
    }
}

/// A passage that a list names is found in it.
proof fn named_is_found<S>(list: Seq<(i64, S)>, pid: i64)
    requires
        scoring::ascending(list),
    ensures
        scoring::lookup(list, pid) is Some <==> exists|i: int|
            0 <= i < list.len() && (#[trigger] list[i]).0 == pid,
{
    if exists|i: int| 0 <= i < list.len() && (#[trigger] list[i]).0 == pid {
        let i = choose|i: int| 0 <= i < list.len() && (#[trigger] list[i]).0 == pid;
        agreement::lookup_at(list, i);
    } else {
        agreement::lookup_absent(list, pid);
    }
}

/// On the host the merged list holds the passages.
proof fn host_lists_passages<S: Score>(c: Candidates<S>, mse: Seq<S>)
    requires
        c.wf(),
        c.regular(),
    ensures
        lists_passages(
            c,
            merger::document_list(cells_of(c), mse, c.nprobe, c.num_cells() / c.nprobe),
        ),
        c.num_cells() == (c.num_cells() / c.nprobe) * c.nprobe,
        0 < c.num_cells() / c.nprobe,
{
    let n = c.num_cells();
    let tokens = n / c.nprobe;
    let cells = cells_of(c);
    let docs = merger::document_list(cells, mse, c.nprobe, tokens);
    vstd::arithmetic::div_mod::lemma_fundamental_div_mod(n, c.nprobe);
    assert(n == tokens * c.nprobe && 0 < tokens) by (nonlinear_arith)
        requires
            n == c.nprobe * tokens,
            0 < n,
            0 < c.nprobe,
    ;
    cell_entry(c, 0);
    regular_cells_ascend(c);
    let all = c.pids.take(c.total());
    assert forall|pid: i64| #[trigger]
        c.passages().contains(pid) <==> (scoring::lookup(docs, pid) is Some) by {
        scoring::document_passages(cells, mse, c.nprobe, tokens, pid);
        if all.contains(pid) {
            let j = choose|j: int| 0 <= j < all.len() && all[j] == pid;
            let i = cell_of(c, n, j);
            cell_entry(c, i);
            assert(0 <= c.sizes[i]);
            assert(cells[i][j - c.offsets[i]].0 == pid);
            named_is_found(cells[i], pid);
            assert(scoring::lookup(cells[i], pid) is Some);
        }
        if exists|i: int| 0 <= i < cells.len() && (#[trigger] scoring::lookup(cells[i], pid)) is Some {
            let i = choose|i: int|
                0 <= i < cells.len() && (#[trigger] scoring::lookup(cells[i], pid)) is Some;
            named_is_found(cells[i], pid);
            cell_entry(c, i);
            assert(0 <= c.sizes[i]);
            let l = choose|l: int| 0 <= l < cells[i].len() && (#[trigger] cells[i][l]).0 == pid;
            offsets_ascend(c, 0, i);
            offsets_ascend(c, i + 1, n);
            assert(all[c.offsets[i] + l] == pid);
        }
    }
    scoring::document_passages(cells, mse, c.nprobe, tokens, 0);
    assert forall|i: int| 0 <= i < docs.len() implies c.passages().contains(
        (#[trigger] docs[i]).0,
    ) by {
        named_is_found(docs, docs[i].0);
    }
    assert forall|pid: i64| #[trigger] c.passages().contains(pid) implies exists|i: int|
        0 <= i < docs.len() && (#[trigger] docs[i]).0 == pid by {
        named_is_found(docs, pid);
    }
}

/// Keeping the larger of neighbours with the same key keeps the passages.
proof fn maxima_keep_passages<S: Score>(sorted: Seq<TokenHit<S>>, pid: i64)
    ensures
        (exists|i: int|
            0 <= i < grouping::maxima(sorted).len() && (#[trigger] grouping::maxima(sorted)[i]).pid
                == pid) <==> exists|i: int| 0 <= i < sorted.len() && (#[trigger] sorted[i]).pid == pid,
    decreases sorted.len(),
{
    if sorted.len() > 0 {
        let before = sorted.drop_last();
        maxima_keep_passages(before, pid);
        let done = grouping::maxima(before);
        let all = grouping::maxima(sorted);
        let hit = sorted.last();
        let merges = done.len() > 0 && grouping::same_key(done.last(), hit);
        assert(sorted[sorted.len() - 1] == hit);
        assert(all[all.len() - 1].pid == hit.pid);
        if exists|i: int| 0 <= i < sorted.len() && (#[trigger] sorted[i]).pid == pid {
            let i = choose|i: int| 0 <= i < sorted.len() && (#[trigger] sorted[i]).pid == pid;
            if i < before.len() {
                assert(before[i].pid == pid);
                let j = choose|j: int| 0 <= j < done.len() && (#[trigger] done[j]).pid == pid;
                assert(all[j].pid == done[j].pid);
            }
        }
        if exists|j: int| 0 <= j < all.len() && (#[trigger] all[j]).pid == pid {
            let j = choose|j: int| 0 <= j < all.len() && (#[trigger] all[j]).pid == pid;
            if j < all.len() - 1 {
                assert(done[j].pid == pid);
                let i = choose|i: int| 0 <= i < before.len() && (#[trigger] before[i]).pid == pid;
                assert(sorted[i].pid == pid);
            }
        }
    }
}

/// The best entries of all keys, in the given order of the hits, ascend.
proof fn grouped_entries<S: Score>(c: Candidates<S>, order: Seq<usize>, tokens: int)
    requires
        c.wf(),
        c.num_cells() <= tokens * c.nprobe,
        grouping::key_sorted(hits_of(c, c.num_cells()), order),
    ensures
        ({
            let best = grouping::maxima(grouping::arranged(hits_of(c, c.num_cells()), order));
            &&& agreement::keys_ascend(best)
            &&& forall|i: int| 0 <= i < best.len() ==> (#[trigger] best[i]).token < tokens
            &&& forall|i: int| 0 <= i < best.len() ==> c.passages().contains((#[trigger] best[i]).pid)
            &&& forall|pid: i64| #[trigger]
                c.passages().contains(pid) ==> exists|i: int|
                    0 <= i < best.len() && (#[trigger] best[i]).pid == pid
        }),
{
    let n = c.num_cells();
    let hits = hits_of(c, n);
    let sorted = grouping::arranged(hits, order);
    let best = grouping::maxima(sorted);
    hits_lie(c, n);
    assert(agreement::keys_sorted(sorted)) by {
        assert forall|i: int, j: int| 0 <= i < j < sorted.len() implies grouping::smaller_key(
            #[trigger] sorted[i],
            #[trigger] sorted[j],
        ) || grouping::same_key(sorted[i], sorted[j]) by {
            assert(sorted[i] == hits[order[i] as int] && sorted[j] == hits[order[j] as int]);
        }
    }
    assert forall|i: int| 0 <= i < sorted.len() implies (#[trigger] sorted[i]).token < tokens by {
        let j = order[i] as int;
        assert(order[i] < hits.len());
        let cell = cell_of(c, n, j);
        assert(hits[j].token == cell / c.nprobe);
        assert(cell / c.nprobe < tokens) by (nonlinear_arith)
            requires
                cell < tokens * c.nprobe,
                0 < c.nprobe,
        ;
    }
    agreement::maxima_ascend(sorted, tokens);
    assert forall|pid: i64|
        (exists|i: int| 0 <= i < sorted.len() && (#[trigger] sorted[i]).pid == pid)
            <==> #[trigger] c.passages().contains(pid) by {
        passages_are_hit(c, pid);
        if c.passages().contains(pid) {
            let j = choose|j: int| 0 <= j < hits.len() && (#[trigger] hits[j]).pid == pid;
            assert(order.contains(j as usize));
            let i = choose|i: int| 0 <= i < order.len() && order[i] == j as usize;
            assert(sorted[i].pid == pid);
        }
        if exists|i: int| 0 <= i < sorted.len() && (#[trigger] sorted[i]).pid == pid {
            let i = choose|i: int| 0 <= i < sorted.len() && (#[trigger] sorted[i]).pid == pid;
            assert(order[i] < hits.len());
            assert(hits[order[i] as int].pid == pid);
        }
    }
    assert forall|i: int| 0 <= i < best.len() implies c.passages().contains(
        (#[trigger] best[i]).pid,
    ) by {
        maxima_keep_passages(sorted, best[i].pid);
    }
    assert forall|pid: i64| #[trigger] c.passages().contains(pid) implies exists|i: int|
        0 <= i < best.len() && (#[trigger] best[i]).pid == pid by {
        maxima_keep_passages(sorted, pid);
    }
}

/// Grouping lists the passages.
proof fn groups_list_passages<S: Score>(
    c: Candidates<S>,
    mse: Seq<S>,
    tokens: int,
    docs: Seq<(i64, S)>,
)
    requires
        c.wf(),
        c.num_cells() <= tokens * c.nprobe,
        grouping::grouped(hits_of(c, c.num_cells()), mse, tokens, docs),
    ensures
        lists_passages(c, docs),
{
    let hits = hits_of(c, c.num_cells());
    let order = choose|order: Seq<usize>| #[trigger]
        grouping::key_sorted(hits, order) && docs == grouping::passage_totals(
            grouping::maxima(grouping::arranged(hits, order)),
            mse,
            tokens,
        );
    grouped_entries(c, order, tokens);
    let best = grouping::maxima(grouping::arranged(hits, order));
    let n = best.len() as int;
    let runs = grouping::passage_runs(best, n);
    agreement::passage_runs_ascend(best, n);
    assert forall|r: int| 0 <= r < docs.len() implies (#[trigger] docs[r]).0 == best[runs[r].0].pid by {}
    assert(scoring::ascending(docs)) by {
        assert forall|q: int, r: int| 0 <= q < r < docs.len() implies (#[trigger] docs[q]).0 < (
        #[trigger] docs[r]).0 by {
            assert(best[runs[q].0].pid < best[runs[r].0].pid);
        }
    }
    assert forall|r: int| 0 <= r < docs.len() implies c.passages().contains(
        (#[trigger] docs[r]).0,
    ) by {
        assert(0 <= runs[r].0 < runs[r].1 <= n);
        assert(c.passages().contains(best[runs[r].0].pid));
    }
    assert forall|pid: i64| #[trigger] c.passages().contains(pid) implies exists|i: int|
        0 <= i < docs.len() && (#[trigger] docs[i]).0 == pid by {
        let i = choose|i: int| 0 <= i < best.len() && (#[trigger] best[i]).pid == pid;
        assert(agreement::in_some_run(runs, i));
        let r = choose|r: int| #[trigger] agreement::in_run(runs, r, i);
        assert(agreement::in_run(runs, r, i));
        assert(best[i].pid == best[runs[r].0].pid);
        assert(docs[r].0 == pid);
    }
}

/// The number of query tokens: each has `nprobe` cells, the last one perhaps fewer.
spec fn num_tokens<S>(c: Candidates<S>) -> int {
    (c.num_cells() + c.nprobe - 1) / c.nprobe
}

proof fn tokens_cover_cells<S>(c: Candidates<S>)
    requires
        c.wf(),
    ensures
        0 < num_tokens(c),
        (num_tokens(c) - 1) * c.nprobe < c.num_cells() <= num_tokens(c) * c.nprobe,
        c.num_cells() % c.nprobe == 0 ==> num_tokens(c) == c.num_cells() / c.nprobe,
{
    let n = c.num_cells();
    let t = num_tokens(c);
    vstd::arithmetic::div_mod::lemma_fundamental_div_mod(n + c.nprobe - 1, c.nprobe);
    let rest = (n + c.nprobe - 1) % c.nprobe;
    assert((t - 1) * c.nprobe < n <= t * c.nprobe && 0 < t) by (nonlinear_arith)
        requires
            n + c.nprobe - 1 == c.nprobe * t + rest,
            0 <= rest < c.nprobe,
            0 < n,
    ;
    if n % c.nprobe == 0 {
        vstd::arithmetic::div_mod::lemma_fundamental_div_mod(n, c.nprobe);
        let q = n / c.nprobe;
        assert(q == t) by (nonlinear_arith)
            requires
                n == c.nprobe * q,
                (t - 1) * c.nprobe < n <= t * c.nprobe,
                0 < c.nprobe,
        ;
    }
}

/// The passages that a merge ranks, with their scores.
spec fn ranks_list<S: Score>(
    m: ResultMerger,
    c: Candidates<S>,
    mse: Seq<S>,
    docs: Seq<(i64, S)>,
) -> bool {
    if m.config.device is Cuda {
        grouping::grouped(hits_of(c, c.num_cells()), mse, num_tokens(c), docs)
    } else {
        docs == merger::document_list(cells_of(c), mse, c.nprobe, num_tokens(c))
    }
}

/// A merge takes the best of a list of the passages.
proof fn result_of_list<S: Score>(
    m: ResultMerger,
    num_cells: nat,
    c: Candidates<S>,
    mse: Seq<S>,
    k: int,
    result_pids: Seq<i64>,
    result_scores: Seq<S>,
) -> (r: (Seq<(i64, S)>, Seq<usize>))
    requires
        c.fit(m, num_cells),
        0 <= k,
        m.merge_result(
            num_cells,
            c.sizes,
            c.pids,
            c.scores,
            mse,
            c.nprobe,
            k,
            result_pids,
            result_scores,
        ),
    ensures
        ranks_list(m, c, mse, r.0),
        lists_passages(c, r.0),
        c.passages().len() == r.0.len() <= usize::MAX,
        ({
            let budget = merger::result_budget(m.config.max_candidates as int, r.0.len() as int, k);
            let length = if m.config.device is Cuda {
                r.1.len() as int
            } else {
                budget
            };
            &&& merger::best(r.0, r.1, budget)
            &&& result_pids == merger::padded_pids(r.0, r.1, length)
            &&& result_scores == merger::padded_scores(r.0, r.1, length)
        }),
{
    tokens_cover_cells(c);
    c.pids.take(c.total()).lemma_cardinality_of_set();
    let cells = cells_of(c);
    let cap = m.config.max_candidates as int;
    if m.config.device is Cuda {
        let hits = hits_of(c, c.num_cells());
        let (docs, order) = choose|docs: Seq<(i64, S)>, order: Seq<usize>|
            {
                &&& #[trigger] grouping::grouped(hits, mse, num_tokens(c), docs)
                &&& #[trigger] merger::best(
                    docs,
                    order,
                    merger::result_budget(cap, docs.len() as int, k),
                )
                &&& result_pids == merger::padded_pids(docs, order, order.len() as int)
                &&& result_scores == merger::padded_scores(docs, order, order.len() as int)
            };
        groups_list_passages(c, mse, num_tokens(c), docs);
        one_entry_each(c, docs);
        (docs, order)
    } else {
        let docs = merger::document_list(cells, mse, c.nprobe, num_tokens(c));
        let budget = merger::result_budget(cap, docs.len() as int, k);
        assert(cells.len() == c.num_cells());
        let order = choose|order: Seq<usize>| #[trigger]
            merger::best(docs, order, budget) && result_pids == merger::padded_pids(
                docs,
                order,
                budget,
            ) && result_scores == merger::padded_scores(docs, order, budget);
        host_lists_passages(c, mse);
        one_entry_each(c, docs);
        (docs, order)
    }
}

/// A ranked passage has the sum of what the tokens add to it.
proof fn ranked_score_is_sum<S: Score>(
    m: ResultMerger,
    num_cells: nat,
    c: Candidates<S>,
    mse: Seq<S>,
    docs: Seq<(i64, S)>,
    i: int,
    parts: Seq<S>,
)
    requires
        score::exact_sums::<S>(),
        score::exact_larger::<S>(),
        c.fit(m, num_cells),
        ranks_list(m, c, mse, docs),
        scoring::ascending(docs),
        0 <= i < docs.len(),
        c.parts_of(mse, docs[i].0, parts),
    ensures
        docs[i].1 == sum(parts),
{
    let n = c.num_cells();
    let pid = docs[i].0;
    let tokens = num_tokens(c);
    let hits = hits_of(c, n);
    tokens_cover_cells(c);
    hits_lie(c, n);
    assert(parts.len() == tokens) by (nonlinear_arith)
        requires
            (parts.len() - 1) * c.nprobe < n <= parts.len() * c.nprobe,
            (tokens - 1) * c.nprobe < n <= tokens * c.nprobe,
            0 < c.nprobe,
    ;
    agreement::lookup_at(docs, i);
    assert(parts.take(tokens) =~= parts);
    if m.config.device is Cuda {
        let order = choose|order: Seq<usize>| #[trigger]
            grouping::key_sorted(hits, order) && docs == grouping::passage_totals(
                grouping::maxima(grouping::arranged(hits, order)),
                mse,
                tokens,
            );
        let sorted = grouping::arranged(hits, order);
        let best = grouping::maxima(sorted);
        grouped_entries(c, order, tokens);
        let lists = Seq::new(
            tokens as nat,
            |t: int|
                match agreement::key_best(best, pid, t) {
                    Some(x) => seq![(pid, x)],
                    None => Seq::<(i64, S)>::empty(),
                },
        );
        assert forall|t: int| #![trigger lists[t]] 0 <= t < tokens implies scoring::lookup(
            lists[t],
            pid,
        ) == agreement::key_best(best, pid, t) && agreement::key_best(best, pid, t)
            == agreement::key_best(hits, pid, t) by {
            agreement::key_best_of_arranged(hits, order, pid, t);
            agreement::key_best_of_maxima(sorted, pid, t);
        }
        agreement::totals_are_sums(lists, best, mse, tokens, pid);
        parts_sum_up(c, lists, mse, pid, parts, tokens);
    } else {
        let cells = cells_of(c);
        let lists = scoring::token_lists(cells, c.nprobe, tokens);
        regular_cells_ascend(c);
        host_lists_passages(c, mse);
        cell_entry(c, 0);
        scoring::document_scores(cells, mse, c.nprobe, tokens, pid);
        assert forall|t: int| #![trigger lists[t]] 0 <= t < tokens implies scoring::lookup(
            lists[t],
            pid,
        ) == agreement::key_best(hits, pid, t) by {
            assert(t * c.nprobe + c.nprobe <= tokens * c.nprobe) by (nonlinear_arith)
                requires
                    t < tokens,
                    0 < c.nprobe,
            ;
            agreement::token_key_best(cells, c.nprobe, n, pid, t);
        }
        parts_sum_up(c, lists, mse, pid, parts, tokens);
    }
}

/// A merge hands on as many passages as it should. Of the passages found, which are
/// the different passages among the candidates, it gives all where there are no more
/// than `k` or no more than the cap, else at least `k` and at least as many as the
/// cap allows, and no more than the larger of the two. Each is a candidate, and none
/// comes twice. On the host, where fewer than `k` are found, passage 0 with score
/// zero fills the result up to `k`; on a CUDA device nothing does.
pub proof fn merge_hands_on_passages<S: Score>(
    m: ResultMerger,
    num_cells: nat,
    c: Candidates<S>,
    mse: Seq<S>,
    k: int,
    result_pids: Seq<i64>,
    result_scores: Seq<S>,
) -> (count: int)
    requires
        c.fit(m, num_cells),
        0 <= k,
        m.merge_result(
            num_cells,
            c.sizes,
            c.pids,
            c.scores,
            mse,
            c.nprobe,
            k,
            result_pids,
            result_scores,
        ),
    ensures
        result_scores.len() == result_pids.len(),
        0 <= count <= result_pids.len(),
        count <= c.passages().len(),
        count == c.passages().len() || count >= k,
        count == c.passages().len() || count >= m.config.max_candidates,
        count <= k || count <= m.config.max_candidates,
        m.config.device is Cuda ==> result_pids.len() == count,
        !(m.config.device is Cuda) ==> result_pids.len() >= k,
        result_pids.len() == count || result_pids.len() <= k,
        forall|i: int| 0 <= i < count ==> c.passages().contains(#[trigger] result_pids[i]),
        forall|i: int, j: int|
            0 <= i < j < count ==> #[trigger] result_pids[i] != #[trigger] result_pids[j],
        forall|i: int| count <= i < result_pids.len() ==> #[trigger] result_pids[i] == 0,
        forall|i: int|
            count <= i < result_scores.len() ==> #[trigger] result_scores[i] == S::spec_zero(),
{
    let (docs, order) = result_of_list(m, num_cells, c, mse, k, result_pids, result_scores);
    let count = order.len() as int;
    assert forall|i: int| 0 <= i < count implies c.passages().contains(
        #[trigger] result_pids[i],
    ) by {
        assert(order[i] < docs.len());
        assert(result_pids[i] == docs[order[i] as int].0);
    }
    assert forall|i: int, j: int| 0 <= i < j < count implies #[trigger] result_pids[i]
        != #[trigger] result_pids[j] by {
        let (x, y) = (order[i] as int, order[j] as int);
        assert(order[i] < docs.len() && order[j] < docs.len() && order[i] != order[j]);
        if x < y {
            assert(docs[x].0 < docs[y].0);
        } else {
            assert(docs[y].0 < docs[x].0);
        }
    }
    count
}

/// A passage scores the sum, over all query tokens, of the largest of its scores for
/// the token, or of the token's own estimate where the token has no candidate of it.
pub proof fn merged_scores_are_sums<S: Score>(
    m: ResultMerger,
    num_cells: nat,
    c: Candidates<S>,
    mse: Seq<S>,
    k: int,
    result_pids: Seq<i64>,
    result_scores: Seq<S>,
    i: int,
    parts: Seq<S>,
)
    requires
        score::exact_sums::<S>(),
        score::exact_larger::<S>(),
        c.fit(m, num_cells),
        0 <= k,
        m.merge_result(
            num_cells,
            c.sizes,
            c.pids,
            c.scores,
            mse,
            c.nprobe,
            k,
            result_pids,
            result_scores,
        ),
        0 <= i < result_pids.len(),
        i < c.passages().len(),
        c.parts_of(mse, result_pids[i], parts),
    ensures
        result_scores[i] == sum(parts),
{
    let (docs, order) = result_of_list(m, num_cells, c, mse, k, result_pids, result_scores);
    assert(order[i] < docs.len());
    assert(result_pids[i] == docs[order[i] as int].0);
    ranked_score_is_sum(m, num_cells, c, mse, docs, order[i] as int, parts);
}

/// The best come first: no passage scores higher than one before it, and level ones
/// come by ascending ID.
pub proof fn merge_ranks_best_first<S: Score>(
    m: ResultMerger,
    num_cells: nat,
    c: Candidates<S>,
    mse: Seq<S>,
    k: int,
    result_pids: Seq<i64>,
    result_scores: Seq<S>,
    i: int,
    j: int,
)
    requires
        forall|s: Seq<S>| #[trigger] score::rankable(s),
        c.fit(m, num_cells),
        0 <= k,
        m.merge_result(
            num_cells,
            c.sizes,
            c.pids,
            c.scores,
            mse,
            c.nprobe,
            k,
            result_pids,
            result_scores,
        ),
        0 <= i < j < result_pids.len(),
        j < c.passages().len(),
    ensures
        !result_scores[j].spec_exceeds(result_scores[i]),
        result_scores[i].spec_exceeds(result_scores[j]) || result_pids[i] < result_pids[j],
{
    let (docs, order) = result_of_list(m, num_cells, c, mse, k, result_pids, result_scores);
    assert(score::rankable(merger::scores_of(docs)));
    merger::best_descend(docs, order, order.len() as int);
    let (x, y) = (order[i] as int, order[j] as int);
    assert(order[i] < docs.len() && order[j] < docs.len());
    assert(ranking::before(merger::scores_of(docs), x, y));
    assert(result_pids[i] == docs[x].0 && result_pids[j] == docs[y].0);
    assert(result_scores[i] == docs[x].1 && result_scores[j] == docs[y].1);
}

/// No passage is left out that scores higher than one in the result.
pub proof fn left_out_scores_no_higher<S: Score>(
    m: ResultMerger,
    num_cells: nat,
    c: Candidates<S>,
    mse: Seq<S>,
    k: int,
    result_pids: Seq<i64>,
    result_scores: Seq<S>,
    i: int,
    left_out: i64,
    parts: Seq<S>,
)
    requires
        score::exact_sums::<S>(),
        score::exact_larger::<S>(),
        forall|s: Seq<S>| #[trigger] score::rankable(s),
        c.fit(m, num_cells),
        0 <= k,
        m.merge_result(
            num_cells,
            c.sizes,
            c.pids,
            c.scores,
            mse,
            c.nprobe,
            k,
            result_pids,
            result_scores,
        ),
        0 <= i < result_pids.len(),
        c.passages().contains(left_out),
        !result_pids.contains(left_out),
        c.parts_of(mse, left_out, parts),
    ensures
        !sum(parts).spec_exceeds(result_scores[i]),
{
    let (docs, order) = result_of_list(m, num_cells, c, mse, k, result_pids, result_scores);
    let q = choose|q: int| 0 <= q < docs.len() && (#[trigger] docs[q]).0 == left_out;
    ranked_score_is_sum(m, num_cells, c, mse, docs, q, parts);
    assert(score::rankable(merger::scores_of(docs)));
    merger::best_descend(docs, order, order.len() as int);
    assert forall|a: int| 0 <= a < order.len() implies order[a] != q by {
        assert(result_pids[a] == docs[order[a] as int].0);
    }
    if order.len() == docs.len() {
        all_are_ordered(docs.len(), order, q as usize);
    }
    assert(i < order.len());
    assert(result_scores[i] == docs[order[i] as int].1);
    assert(!order.contains(q as usize));
    assert(!docs[q].1.spec_exceeds(docs[order[i] as int].1));
}

/// As many different positions as there are hold every position.
proof fn all_are_ordered(count: nat, order: Seq<usize>, q: usize)
    requires
        ranking::positions(count, order),
        order.len() == count <= usize::MAX,
        q < count,
    ensures
        order.contains(q),
{
    let all = Set::new(|i: usize| i < count);
    order.unique_seq_to_set();
    let range = Seq::new(count, |i: int| i as usize);
    assert(range.no_duplicates());
    range.unique_seq_to_set();
    assert(range.to_set() =~= all) by {
        assert forall|i: usize| all.contains(i) implies range.to_set().contains(i) by {
            assert(range[i as int] == i);
        }
    }
    assert(order.to_set().subset_of(all));
    vstd::set_lib::lemma_subset_equality(order.to_set(), all);
    assert(order.to_set().contains(q));
}

/// Every valid input can be merged: on a CUDA device where the sizes account for all
/// candidates, elsewhere where every token has all its cells and there is room for a
/// result.
pub proof fn valid_candidates_can_be_merged<S: Score>(
    m: ResultMerger,
    num_cells: nat,
    c: Candidates<S>,
    k: int,
)
    requires
        c.wf(),
        if m.config.device is Cuda {
            &&& c.num_cells() == c.sizes.len()
            &&& c.total() == c.pids.len()
        } else {
            &&& c.num_cells() == num_cells
            &&& num_cells < usize::MAX
            &&& c.num_cells() % c.nprobe == 0
            &&& 0 < k || 0 < m.config.max_candidates
        },
    ensures
        m.mergeable(num_cells, c.sizes, c.pids.len(), c.scores.len(), c.nprobe, k),
{
    offsets_agree(c, c.num_cells());
}

/// Where nothing is configured, 256 candidates are kept by one thread; what is
/// configured is taken as it is, and the device is the given one.
pub proof fn merger_follows_configuration<S>(
    config: SearchConfig<S>,
    device: Device,
)
    ensures
        config.max_candidates is None ==> scorer::merger_for(config, device).max_candidates == 256,
        config.max_candidates matches Some(n) ==> scorer::merger_for(config, device).max_candidates
            == n,
        config.num_threads is None ==> scorer::merger_for(config, device).num_threads == 1,
        config.num_threads matches Some(n) ==> scorer::merger_for(config, device).num_threads == n,
        scorer::merger_for(config, device).device == device,
{
}

impl<S: Score> Candidates<S> {
    /// The candidates are those of a probed query, with the cells of its tokens as
    /// many as the scorer probes.
    pub open spec fn probed(self, s: WARPScorer<S>, query: ProbedQuery<S>) -> bool {
        &&& s.merger.config == scorer::merger_for(s.config, s.device)
        &&& self.sizes == query.cells.sizes@
        &&& self.pids == query.cells.passage_ids@
        &&& self.scores == query.cells.scores@
        &&& self.nprobe == s.config.nprobe
        &&& self.fit(s.merger, query.cells.capacities@.len())
    }
}

/// Every probed query with valid candidates can be ranked.
pub proof fn probed_queries_can_be_ranked<S: Score>(
    s: WARPScorer<S>,
    query: ProbedQuery<S>,
    c: Candidates<S>,
)
    requires
        c.probed(s, query),
        s.device is Cuda || (query.cells.capacities@.len() < usize::MAX && (0 < s.config.k || 0
            < s.merger.config.max_candidates)),
    ensures
        s.rankable(query),
{
    valid_candidates_can_be_merged(
        s.merger,
        query.cells.capacities@.len(),
        c,
        s.config.k as int,
    );
}

/// Every output of shards with valid candidates can be gathered and ranked.
pub proof fn complete_outputs_can_be_ranked<S: Score>(
    s: ShardedWARPScorer<S>,
    outputs: Seq<ShardCellOutput<S>>,
    num_cells: nat,
    c: Candidates<S>,
)
    requires
        forall|t: int|
            0 <= t < outputs.len() ==> gather::output_wf(#[trigger] outputs[t], num_cells as int),
        c.wf(),
        c.sizes == gather::gathered_sizes(outputs, num_cells),
        c.num_cells() == num_cells,
        c.pids.len() == c.total(),
        c.scores.len() == c.total(),
        c.nprobe == s.config.nprobe,
        s.merger.config.device is Cuda || (num_cells < usize::MAX && c.num_cells() % c.nprobe == 0
            && (0 < s.config.k || 0 < s.merger.config.max_candidates)),
    ensures
        s.gatherable(outputs, num_cells),
{
    offsets_agree(c, c.num_cells());
    valid_candidates_can_be_merged(s.merger, num_cells, c, s.config.k as int);
}

/// A configuration's device and type are those that its strings name.
pub proof fn configured_device_and_type_are_used<S>(
    config: SearchConfig<S>,
    r: Result<(Device, Kind), scorer::ScorerError>,
    device: Result<Device, DeviceError>,
    dtype: Result<Kind, DtypeError>,
)
    requires
        scorer::resolves(config, r),
        types::names_device(
            types::lowercase(config.device@),
            config.device@,
            device,
        ),
        types::names_dtype(
            types::lowercase(config.dtype@),
            config.dtype@,
            dtype,
        ),
    ensures
        r is Ok <==> device is Ok && dtype is Ok,
        r is Ok ==> r->Ok_0.0 == device->Ok_0 && r->Ok_0.1 == dtype->Ok_0,
        r is Err ==> (device is Err <==> r->Err_0 is Device),
{
}

/// A search for `k` passages hands on at least `k` of those found, or all of them
/// where fewer are found, or where they are no more than the candidates to consider,
/// 256 where none are configured. Results are numbered from one.
pub proof fn search_hands_on_passages<S: Score>(
    s: WARPScorer<S>,
    query_idx: int,
    query: ProbedQuery<S>,
    c: Candidates<S>,
    result: SearchResult<S>,
) -> (count: int)
    requires
        c.probed(s, query),
        s.ranks(query_idx, query, result),
    ensures
        result.query_id == query_idx + 1,
        result.scores@.len() == result.passage_ids@.len(),
        0 <= count <= result.passage_ids@.len(),
        count <= c.passages().len(),
        count == c.passages().len() || count >= s.config.k,
        ({
            let cap: usize = match s.config.max_candidates {
                Some(n) => n,
                None => 256,
            };
            &&& count == c.passages().len() || count >= cap
            &&& count <= s.config.k || count <= cap
        }),
        s.device is Cuda ==> result.passage_ids@.len() == count,
        !(s.device is Cuda) ==> result.passage_ids@.len() >= s.config.k,
        result.passage_ids@.len() == count || result.passage_ids@.len() <= s.config.k,
        forall|i: int|
            0 <= i < count ==> c.passages().contains(#[trigger] result.passage_ids@[i]),
        forall|i: int, j: int|
            0 <= i < j < count ==> #[trigger] result.passage_ids@[i]
                != #[trigger] result.passage_ids@[j],
        forall|i: int|
            count <= i < result.passage_ids@.len() ==> #[trigger] result.passage_ids@[i] == 0,
        forall|i: int|
            count <= i < result.scores@.len() ==> #[trigger] result.scores@[i] == S::spec_zero(),
{
    merge_hands_on_passages(
        s.merger,
        query.cells.capacities@.len(),
        c,
        query.mse_estimate@,
        s.config.k as int,
        result.passage_ids@,
        result.scores@,
    )
}

/// What a search gives a passage is the sum over all query tokens of the largest of
/// its scores for the token, or of the token's own estimate where it has none.
pub proof fn search_scores_are_sums<S: Score>(
    s: WARPScorer<S>,
    query_idx: int,
    query: ProbedQuery<S>,
    c: Candidates<S>,
    result: SearchResult<S>,
    i: int,
    parts: Seq<S>,
)
    requires
        score::exact_sums::<S>(),
        score::exact_larger::<S>(),
        c.probed(s, query),
        s.ranks(query_idx, query, result),
        0 <= i < result.passage_ids@.len(),
        i < c.passages().len(),
        c.parts_of(query.mse_estimate@, result.passage_ids@[i], parts),
    ensures
        result.scores@[i] == sum(parts),
{
    merged_scores_are_sums(
        s.merger,
        query.cells.capacities@.len(),
        c,
        query.mse_estimate@,
        s.config.k as int,
        result.passage_ids@,
        result.scores@,
        i,
        parts,
    );
}

/// A search gives the best first, level ones by ascending ID.
pub proof fn search_ranks_best_first<S: Score>(
    s: WARPScorer<S>,
    query_idx: int,
    query: ProbedQuery<S>,
    c: Candidates<S>,
    result: SearchResult<S>,
    i: int,
    j: int,
)
    requires
        forall|x: Seq<S>| #[trigger] score::rankable(x),
        c.probed(s, query),
        s.ranks(query_idx, query, result),
        0 <= i < j < result.passage_ids@.len(),
        j < c.passages().len(),
    ensures
        !result.scores@[j].spec_exceeds(result.scores@[i]),
        result.scores@[i].spec_exceeds(result.scores@[j]) || result.passage_ids@[i]
            < result.passage_ids@[j],
{
    merge_ranks_best_first(
        s.merger,
        query.cells.capacities@.len(),
        c,
        query.mse_estimate@,
        s.config.k as int,
        result.passage_ids@,
        result.scores@,
        i,
        j,
    );
}

/// The largest score of a passage for a token, among the candidates before `end`.
proof fn largest_candidate(c: Candidates<i64>, pid: i64, token: int, end: int) -> (x: i64)
    requires
        exists|j: int| #[trigger] c.supports(pid, token, j) && j < end,
        c.token_start(token) <= end,
    ensures
        exists|j: int| #[trigger] c.supports(pid, token, j) && c.scores[j] == x,
        forall|j: int| #[trigger] c.supports(pid, token, j) && j < end ==> c.scores[j] <= x,
    decreases end - c.token_start(token),
{
    let last = end - 1;
    if exists|j: int| #[trigger] c.supports(pid, token, j) && j < last {
        let before = largest_candidate(c, pid, token, last);
        if c.supports(pid, token, last) && c.scores[last] > before {
            c.scores[last]
        } else {
            before
        }
    } else {
        assert(c.supports(pid, token, last));
        c.scores[last]
    }
}

/// With whole-number scores, every passage has parts that its score sums up.
pub proof fn whole_scores_have_parts(
    c: Candidates<i64>,
    mse: Seq<i64>,
    pid: i64,
    num_tokens: nat,
) -> (parts: Seq<i64>)
    requires
        c.wf(),
        (num_tokens - 1) * c.nprobe < c.num_cells() <= num_tokens * c.nprobe,
    ensures
        c.parts_of(mse, pid, parts),
{
    let parts = Seq::new(num_tokens, |t: int| choose|x: i64| c.adds(mse, pid, t, x));
    assert forall|t: int| 0 <= t < num_tokens implies c.adds(mse, pid, t, #[trigger] parts[t]) by {
        if exists|j: int| #[trigger] c.supports(pid, t, j) {
            let j = choose|j: int| #[trigger] c.supports(pid, t, j);
            assert(c.supports(pid, t, j) && j < c.token_end(t));
            let x = largest_candidate(c, pid, t, c.token_end(t));
            assert(c.adds(mse, pid, t, x));
        } else if t < mse.len() {
            assert(c.adds(mse, pid, t, mse[t]));
        } else {
            assert(c.adds(mse, pid, t, 0));
        }
    }
    parts
}

/// No passage is left out of a search that scores higher than one in its result.
pub proof fn search_leaves_out_no_better<S: Score>(
    s: WARPScorer<S>,
    query_idx: int,
    query: ProbedQuery<S>,
    c: Candidates<S>,
    result: SearchResult<S>,
    i: int,
    left_out: i64,
    parts: Seq<S>,
)
    requires
        score::exact_sums::<S>(),
        score::exact_larger::<S>(),
        forall|x: Seq<S>| #[trigger] score::rankable(x),
        c.probed(s, query),
        s.ranks(query_idx, query, result),
        0 <= i < result.passage_ids@.len(),
        c.passages().contains(left_out),
        !result.passage_ids@.contains(left_out),
        c.parts_of(query.mse_estimate@, left_out, parts),
    ensures
        !sum(parts).spec_exceeds(result.scores@[i]),
{
    left_out_scores_no_higher(
        s.merger,
        query.cells.capacities@.len(),
        c,
        query.mse_estimate@,
        s.config.k as int,
        result.passage_ids@,
        result.scores@,
        i,
        left_out,
        parts,
    );
}

/// Ascending positions that hold the first `n` hold them first.
proof fn first_positions(picked: Seq<int>, n: int, i: int)
    requires
        forall|a: int| 0 <= a < picked.len() ==> 0 <= #[trigger] picked[a],
        forall|a: int, b: int| 0 <= a < b < picked.len() ==> #[trigger] picked[a] < #[trigger] picked[b],
        forall|q: int| 0 <= q < n ==> #[trigger] picked.contains(q),
        0 <= i < n,
    ensures
        i < picked.len(),
        picked[i] == i,
    decreases i,
{
    assert(picked.contains(i));
    let j = choose|j: int| 0 <= j < picked.len() && picked[j] == i;
    if 0 < i {
        first_positions(picked, n, i - 1);
        if j < i {
            assert(j < i - 1 ==> picked[j] < picked[i - 1]);
        }
        if i < j {
            assert(picked[i - 1] < picked[i] && picked[i] < picked[j]);
        }
    } else if 0 < j {
        assert(picked[0] < picked[j]);
    }
}

/// A user who asks for `k` passages gets `k` where that many are found and none of
/// them is deleted: the first `k` of the ranking, with their scores.
pub proof fn search_returns_top_k<S: Score>(
    s: WARPScorer<S>,
    query_idx: int,
    query: ProbedQuery<S>,
    c: Candidates<S>,
    result: SearchResult<S>,
    deleted: Set<i64>,
    r: SearchResult<S>,
)
    requires
        c.probed(s, query),
        s.ranks(query_idx, query, result),
        tombstones::filtered(result, deleted, s.config.k as int, r),
        forall|pid: i64| #[trigger] c.passages().contains(pid) ==> !deleted.contains(pid),
        s.config.k <= c.passages().len(),
    ensures
        r.passage_ids@.len() == s.config.k,
        r.scores@.len() == s.config.k,
        forall|i: int|
            0 <= i < s.config.k ==> #[trigger] r.passage_ids@[i] == result.passage_ids@[i]
                && r.scores@[i] == result.scores@[i],
        r.query_id == query_idx + 1,
{
    let k = s.config.k as int;
    let count = search_hands_on_passages(s, query_idx, query, c, result);
    let picked = tombstones::filtering_keeps_scores(result, deleted, k, r);
    assert forall|q: int| 0 <= q < k implies #[trigger] picked.contains(q) by {
        assert(c.passages().contains(result.passage_ids@[q]));
        if !picked.contains(q) {
            assert(picked.len() == k);
            positions_grow(picked, k - 1);
            assert(picked[k - 1] != q) by {
                assert(picked.contains(picked[k - 1]));
            }
            assert(q < picked[k - 1]);
        }
    }
    assert forall|i: int| 0 <= i < k implies i < picked.len() && picked[i] == i by {
        first_positions(picked, k, i);
    }
    if 0 < k {
        first_positions(picked, k, k - 1);
    }
}

proof fn positions_grow(picked: Seq<int>, i: int)
    requires
        forall|a: int| 0 <= a < picked.len() ==> 0 <= #[trigger] picked[a],
        forall|a: int, b: int| 0 <= a < b < picked.len() ==> #[trigger] picked[a] < #[trigger] picked[b],
        0 <= i < picked.len(),
    ensures
        i <= picked[i],
    decreases i,
{
    if 0 < i {
        positions_grow(picked, i - 1);
        assert(picked[i - 1] < picked[i]);
    }
}

} // verus!
