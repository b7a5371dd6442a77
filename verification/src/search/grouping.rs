//! Scoring of passages by sorting and grouping their candidates.

use crate::score::Score;
use crate::search::ranking;
use crate::search::ranking::PositionOrder;
use crate::search::reduction;
use vstd::prelude::*;

verus! {

/// A candidate, with the query token that its cell was probed for.
pub struct TokenHit<S> {
    pub pid: i64,
    pub token: usize,
    pub score: S,
}

/// Whether two candidates are of the same passage and the same token.
pub open spec fn same_key<S>(a: TokenHit<S>, b: TokenHit<S>) -> bool {
    a.pid == b.pid && a.token == b.token
}

/// Whether the key of `a` is smaller: by passage first, by token next.
pub open spec fn smaller_key<S>(a: TokenHit<S>, b: TokenHit<S>) -> bool {
    a.pid < b.pid || (a.pid == b.pid && a.token < b.token)
}

/// The candidates of one cell.
pub open spec fn cell_hits<S>(cell: Seq<(i64, S)>, token: int) -> Seq<TokenHit<S>> {
    cell.map_values(|e: (i64, S)| TokenHit { pid: e.0, token: token as usize, score: e.1 })
}

/// The candidates of the first `n` cells, `nprobe` of which belong to each token.
pub open spec fn token_hits<S>(cells: Seq<Seq<(i64, S)>>, nprobe: int, n: int) -> Seq<TokenHit<S>>
    decreases n,
{
    if n <= 0 {
        Seq::empty()
    } else {
        token_hits(cells, nprobe, n - 1) + cell_hits(cells[n - 1], (n - 1) / nprobe)
    }
}

/// The order of ascending keys, with ties in the order of the positions.
pub struct KeyOrder<S> {
    pub hits: Vec<TokenHit<S>>,
}

impl<S> PositionOrder for KeyOrder<S> {
    open spec fn count(&self) -> nat {
        self.hits@.len()
    }

    open spec fn spec_precedes(&self, i: int, j: int) -> bool {
        smaller_key(self.hits@[i], self.hits@[j]) || (same_key(self.hits@[i], self.hits@[j]) && i
            < j)
    }

    fn precedes(&self, i: usize, j: usize) -> (r: bool) {
        let a = &self.hits[i];
        let b = &self.hits[j];
        a.pid < b.pid || (a.pid == b.pid && (a.token < b.token || (a.token == b.token && i < j)))
    }
}

/// The positions `order` list all candidates by ascending key, those of one key
/// in the order in which they stand in `hits`.
pub open spec fn key_sorted<S>(hits: Seq<TokenHit<S>>, order: Seq<usize>) -> bool {
    &&& ranking::arrangement(hits.len(), order)
    &&& forall|a: int, b: int|
        0 <= a < b < order.len() ==> smaller_key(
            hits[#[trigger] order[a] as int],
            hits[#[trigger] order[b] as int],
        ) || (same_key(hits[order[a] as int], hits[order[b] as int]) && order[a] < order[b])
}

/// The candidates at the given positions.
pub open spec fn arranged<S>(hits: Seq<TokenHit<S>>, order: Seq<usize>) -> Seq<TokenHit<S>> {
    order.map_values(|i: usize| hits[i as int])
}

/// Neighbouring candidates with the same key become one, with the larger score.
pub open spec fn maxima<S: Score>(sorted: Seq<TokenHit<S>>) -> Seq<TokenHit<S>>
    decreases sorted.len(),
{
    if sorted.len() == 0 {
        Seq::empty()
    } else {
        let done = maxima(sorted.drop_last());
        let hit = sorted.last();
        if done.len() > 0 && same_key(done.last(), hit) {
            done.drop_last().push(
                TokenHit {
                    pid: hit.pid,
                    token: hit.token,
                    score: done.last().score.spec_larger(hit.score),
                },
            )
        } else {
            done.push(hit)
        }
    }
}

/// The sum, over the first `n` entries, of what each adds to its token's estimate.
pub open spec fn gain_prefix<S: Score>(best: Seq<TokenHit<S>>, mse: Seq<S>, n: int) -> S
    decreases n,
{
    if n <= 0 {
        S::spec_zero()
    } else {
        gain_prefix(best, mse, n - 1).spec_plus(
            best[n - 1].score.spec_minus(reduction::mse_at(mse, best[n - 1].token as int)),
        )
    }
}

/// The stretches of entries of one passage, as start and end, among the first
/// `n` entries.
pub open spec fn passage_runs<S>(best: Seq<TokenHit<S>>, n: int) -> Seq<(int, int)>
    decreases n,
{
    if n <= 0 {
        Seq::empty()
    } else {
        let runs = passage_runs(best, n - 1);
        if n >= 2 && best[n - 2].pid == best[n - 1].pid {
            runs.drop_last().push((runs.last().0, n))
        } else {
            runs.push((n - 1, n))
        }
    }
}

/// The score of a passage: the estimates of all tokens, and what its own
/// entries add to them.
pub open spec fn run_total<S: Score>(
    best: Seq<TokenHit<S>>,
    mse: Seq<S>,
    num_tokens: int,
    run: (int, int),
) -> (i64, S) {
    (
        best[run.0].pid,
        gain_prefix(best, mse, run.1).spec_minus(gain_prefix(best, mse, run.0)).spec_plus(
            reduction::mse_prefix(mse, num_tokens),
        ),
    )
}

/// The passages with their scores over all query tokens.
pub open spec fn passage_totals<S: Score>(
    best: Seq<TokenHit<S>>,
    mse: Seq<S>,
    num_tokens: int,
) -> Seq<(i64, S)> {
    passage_runs(best, best.len() as int).map_values(
        |run: (int, int)| run_total(best, mse, num_tokens, run),
    )
}

/// `docs` are the passages of the candidates with their scores, by ascending passage.
pub open spec fn grouped<S: Score>(
    hits: Seq<TokenHit<S>>,
    mse: Seq<S>,
    num_tokens: int,
    docs: Seq<(i64, S)>,
) -> bool {
    exists|order: Seq<usize>| #[trigger]
        key_sorted(hits, order) && docs == passage_totals(
            maxima(arranged(hits, order)),
            mse,
            num_tokens,
        )
}

proof fn keys_are_ordered<S>(o: KeyOrder<S>)
    ensures
        ranking::total_order(o),
{
}

proof fn runs_are_inside<S>(best: Seq<TokenHit<S>>, n: int)
    requires
        0 <= n <= best.len(),
    ensures
        n > 0 ==> passage_runs(best, n).len() > 0 && passage_runs(best, n).last().1 == n,
        passage_runs(best, n).len() <= n,
        forall|r: int|
            0 <= r < passage_runs(best, n).len() ==> 0 <= (#[trigger] passage_runs(best, n)[r]).0
                < passage_runs(best, n)[r].1 <= n,
    decreases n,
{
    if 0 < n {
        runs_are_inside(best, n - 1);
    }
}

/// The best candidate of every key.
fn best_per_key<S: Score>(hits: Vec<TokenHit<S>>) -> (r: Vec<TokenHit<S>>)
    ensures
        exists|order: Seq<usize>| #[trigger]
            key_sorted(hits@, order) && r@ == maxima(arranged(hits@, order)),
{
    let count: usize = hits.len();
    let o = KeyOrder { hits };
    let order = ranking::sorted_positions(&o, count);
    proof {
        keys_are_ordered(o);
        assert forall|a: int, b: int| 0 <= a < b < order@.len() implies smaller_key(
            hits@[#[trigger] order@[a] as int],
            hits@[#[trigger] order@[b] as int],
        ) || (same_key(hits@[order@[a] as int], hits@[order@[b] as int]) && order@[a] < order@[b])
            by {
            assert(o.spec_precedes(order@[a] as int, order@[b] as int));
        }
        assert(key_sorted(hits@, order@));
    }
    let ghost sorted = arranged(hits@, order@);
    let mut r: Vec<TokenHit<S>> = Vec::new();
    let mut i: usize = 0;
    assert(sorted.take(0) =~= Seq::<TokenHit<S>>::empty());
    while i < order.len()
        invariant
            i <= order@.len(),
            order@.len() == count,
            o.hits@ == hits@,
            sorted == arranged(hits@, order@),
            ranking::arrangement(hits@.len(), order@),
            r@ == maxima(sorted.take(i as int)),
        decreases order@.len() - i,
    {
        let hit = &o.hits[order[i]];
        proof {
            assert(sorted.take(i + 1).drop_last() =~= sorted.take(i as int));
            assert(sorted.take(i + 1).last() == *hit);
            reveal_with_fuel(maxima, 2);
        }
        let n: usize = r.len();
        if n > 0 && r[n - 1].pid == hit.pid && r[n - 1].token == hit.token {
            let score: S = r[n - 1].score.larger(hit.score);
            let merged = TokenHit { pid: hit.pid, token: hit.token, score };
            let ghost before = r@;
            r.pop();
            r.push(merged);
            assert(r@ =~= before.drop_last().push(merged));
        } else {
            r.push(TokenHit { pid: hit.pid, token: hit.token, score: hit.score });
        }
        i += 1;
    }
    assert(sorted.take(order@.len() as int) =~= sorted);
    r
}

/// The passages with their scores over all query tokens, by ascending passage.
pub fn group_hits<S: Score>(hits: Vec<TokenHit<S>>, mse: &Vec<S>, num_tokens: usize) -> (docs: (
    Vec<i64>,
    Vec<S>,
))
    ensures
        docs.0@.len() == docs.1@.len(),
        grouped(
            hits@,
            mse@,
            num_tokens as int,
            Seq::new(docs.0@.len(), |i: int| (docs.0@[i], docs.1@[i])),
        ),
{
    let best = best_per_key(hits);
    let ghost order = choose|order: Seq<usize>| #[trigger]
        key_sorted(hits@, order) && best@ == maxima(arranged(hits@, order));

    // Sum of all estimates
    let mut sum_mse: S = S::zero();
    let mut t: usize = 0;
    while t < num_tokens
        invariant
            t <= num_tokens,
            sum_mse == reduction::mse_prefix(mse@, t as int),
        decreases num_tokens - t,
    {
        let estimate: S = if t < mse.len() {
            mse[t]
        } else {
            S::zero()
        };
        sum_mse = sum_mse.plus(estimate);
        t += 1;
    }

    // Running sums, and the bounds of each passage's entries
    let mut prefix: Vec<S> = Vec::new();
    prefix.push(S::zero());
    let mut starts: Vec<usize> = Vec::new();
    let mut ends: Vec<usize> = Vec::new();
    let mut i: usize = 0;
    while i < best.len()
        invariant
            i <= best@.len(),
            prefix@.len() == i + 1,
            forall|j: int| 0 <= j <= i ==> prefix@[j] == gain_prefix(best@, mse@, j),
            starts@.len() == passage_runs(best@, i as int).len(),
            ends@.len() == starts@.len(),
            forall|r: int|
                0 <= r < starts@.len() ==> #[trigger] passage_runs(best@, i as int)[r] == (
                    starts@[r] as int,
                    ends@[r] as int,
                ),
        decreases best@.len() - i,
    {
        proof {
            runs_are_inside(best@, i as int);
            reveal_with_fuel(passage_runs, 2);
            reveal_with_fuel(gain_prefix, 2);
        }
        let token: usize = best[i].token;
        let estimate: S = if token < mse.len() {
            mse[token]
        } else {
            S::zero()
        };
        let sum: S = prefix[i].plus(best[i].score.minus(estimate));
        prefix.push(sum);
        if i >= 1 && best[i - 1].pid == best[i].pid {
            let last: usize = ends.len() - 1;
            ends.set(last, i + 1);
        } else {
            starts.push(i);
            ends.push(i + 1);
        }
        i += 1;
    }

    let mut pids: Vec<i64> = Vec::new();
    let mut totals: Vec<S> = Vec::new();
    let mut r: usize = 0;
    proof {
        runs_are_inside(best@, best@.len() as int);
    }
    let ghost runs = passage_runs(best@, best@.len() as int);
    while r < starts.len()
        invariant
            r <= starts@.len(),
            ends@.len() == starts@.len(),
            starts@.len() == runs.len(),
            prefix@.len() == best@.len() + 1,
            forall|j: int| 0 <= j <= best@.len() ==> prefix@[j] == gain_prefix(best@, mse@, j),
            forall|q: int|
                0 <= q < runs.len() ==> #[trigger] runs[q] == (starts@[q] as int, ends@[q] as int),
            forall|q: int|
                0 <= q < runs.len() ==> 0 <= (#[trigger] runs[q]).0 < runs[q].1 <= best@.len(),
            sum_mse == reduction::mse_prefix(mse@, num_tokens as int),
            pids@.len() == r,
            totals@.len() == r,
            forall|q: int|
                0 <= q < r ==> (#[trigger] pids@[q], totals@[q]) == run_total(
                    best@,
                    mse@,
                    num_tokens as int,
                    runs[q],
                ),
        decreases starts@.len() - r,
    {
        assert(runs[r as int] == (starts@[r as int] as int, ends@[r as int] as int));
        let total: S = prefix[ends[r]].minus(prefix[starts[r]]).plus(sum_mse);
        pids.push(best[starts[r]].pid);
        totals.push(total);
        r += 1;
    }
    proof {
        let docs = Seq::new(pids@.len(), |i: int| (pids@[i], totals@[i]));
        assert(docs =~= passage_totals(best@, mse@, num_tokens as int));
        assert(key_sorted(hits@, order));
    }
    (pids, totals)
}

} // verus!
