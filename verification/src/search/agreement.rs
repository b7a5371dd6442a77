//! Why sorting and grouping candidates scores passages as merging their lists does.

use crate::score;
use crate::score::Score;
use crate::search::grouping;
use crate::search::grouping::TokenHit;
use crate::search::merger;
use crate::search::merger::ResultMerger;
use crate::search::ranking;
use crate::search::reduction;
use crate::search::scoring;
use vstd::prelude::*;

verus! {

/// Whether a candidate is of the given passage and token.
pub open spec fn has_key<S>(hit: TokenHit<S>, pid: i64, token: int) -> bool {
    hit.pid == pid && hit.token == token
}

/// The best score of a passage for a token, among candidates.
pub open spec fn key_best<S: Score>(hits: Seq<TokenHit<S>>, pid: i64, token: int) -> Option<S>
    decreases hits.len(),
{
    if hits.len() == 0 {
        None
    } else {
        better(key_best(hits.drop_last(), pid, token), hits.last(), pid, token)
    }
}

/// A best score, and one candidate more.
pub open spec fn better<S: Score>(best: Option<S>, hit: TokenHit<S>, pid: i64, token: int) -> Option<S> {
    if has_key(hit, pid, token) {
        scoring::larger_of(best, Some(hit.score))
    } else {
        best
    }
}

proof fn key_best_joins<S: Score>(
    a: Seq<TokenHit<S>>,
    b: Seq<TokenHit<S>>,
    pid: i64,
    token: int,
)
    requires
        score::exact_larger::<S>(),
    ensures
        key_best(a + b, pid, token) == scoring::larger_of(
            key_best(a, pid, token),
            key_best(b, pid, token),
        ),
    decreases b.len(),
{
    if b.len() == 0 {
        assert(a + b =~= a);
    } else {
        assert((a + b).drop_last() =~= a + b.drop_last());
        key_best_joins(a, b.drop_last(), pid, token);
        scoring::larger_of_regroups(
            key_best(a, pid, token),
            key_best(b.drop_last(), pid, token),
            Some(b.last().score),
        );
    }
}

/// A list with an entry after it whose passage is larger than all.
proof fn lookup_last<S>(list: Seq<(i64, S)>, pid: i64)
    requires
        scoring::ascending(list),
        list.len() > 0,
    ensures
        scoring::lookup(list, pid) == (if list.last().0 == pid {
            Some(list.last().1)
        } else {
            scoring::lookup(list.drop_last(), pid)
        }),
        list.last().0 == pid ==> scoring::lookup(list.drop_last(), pid) is None,
    decreases list.len(),
{
    if list.len() > 1 {
        let tail = list.drop_first();
        assert forall|i: int, j: int| 0 <= i < j < tail.len() implies (#[trigger] tail[i]).0 < (
        #[trigger] tail[j]).0 by {
            assert(tail[i] == list[i + 1] && tail[j] == list[j + 1]);
        }
        lookup_last(tail, pid);
        assert(tail.drop_last() =~= list.drop_last().drop_first());
        assert(list[0].0 < list[list.len() - 1].0);
    } else {
        reveal_with_fuel(scoring::lookup, 2);
        assert(list.drop_first().len() == 0);
        assert(list.drop_last().len() == 0);
    }
}

proof fn ascending_prefix<S>(list: Seq<(i64, S)>)
    requires
        scoring::ascending(list),
        list.len() > 0,
    ensures
        scoring::ascending(list.drop_last()),
{
    let head = list.drop_last();
    assert forall|i: int, j: int| 0 <= i < j < head.len() implies (#[trigger] head[i]).0 < (
    #[trigger] head[j]).0 by {
        assert(head[i] == list[i] && head[j] == list[j]);
    }
}

proof fn cell_key_best<S: Score>(cell: Seq<(i64, S)>, own: int, pid: i64, token: int)
    requires
        scoring::ascending(cell),
        0 <= own <= usize::MAX,
    ensures
        key_best(grouping::cell_hits(cell, own), pid, token) == (if own == token {
            scoring::lookup(cell, pid)
        } else {
            None
        }),
    decreases cell.len(),
{
    if cell.len() > 0 {
        assert(grouping::cell_hits(cell, own).drop_last() =~= grouping::cell_hits(
            cell.drop_last(),
            own,
        ));
        ascending_prefix(cell);
        cell_key_best(cell.drop_last(), own, pid, token);
        lookup_last(cell, pid);
    }
}

/// The best score of a passage for a token, among the first `n` cells, is that
/// among the token's cells.
pub proof fn token_key_best<S: Score>(
    cells: Seq<Seq<(i64, S)>>,
    nprobe: int,
    n: int,
    pid: i64,
    token: int,
)
    requires
        score::exact_larger::<S>(),
        0 < nprobe,
        0 <= token,
        0 <= n <= cells.len() <= usize::MAX,
        forall|i: int| 0 <= i < cells.len() ==> scoring::ascending(#[trigger] cells[i]),
    ensures
        key_best(grouping::token_hits(cells, nprobe, n), pid, token) == scoring::best_score(
            cells,
            pid,
            token * nprobe,
            if n < token * nprobe + nprobe {
                n
            } else {
                token * nprobe + nprobe
            },
        ),
    decreases n,
{
    if n > 0 {
        let own = (n - 1) / nprobe;
        token_key_best(cells, nprobe, n - 1, pid, token);
        assert(0 <= own <= n - 1) by (nonlinear_arith)
            requires
                own == (n - 1) / nprobe,
                0 < nprobe,
                0 < n,
        ;
        assert(own == token <==> token * nprobe <= n - 1 < token * nprobe + nprobe)
            by (nonlinear_arith)
            requires
                own == (n - 1) / nprobe,
                0 < nprobe,
        ;
        cell_key_best(cells[n - 1], own, pid, token);
        key_best_joins(
            grouping::token_hits(cells, nprobe, n - 1),
            grouping::cell_hits(cells[n - 1], own),
            pid,
            token,
        );
    } else {
        assert(0 <= token * nprobe) by (nonlinear_arith)
            requires
                0 <= token,
                0 < nprobe,
        ;
    }
}

proof fn key_best_is_fold<S: Score>(hits: Seq<TokenHit<S>>, pid: i64, token: int)
    ensures
        key_best(hits, pid, token) == hits.fold_left(
            None,
            |best: Option<S>, hit: TokenHit<S>| better(best, hit, pid, token),
        ),
    decreases hits.len(),
{
    if hits.len() > 0 {
        key_best_is_fold(hits.drop_last(), pid, token);
    }
}

/// The candidates in another order are the same candidates.
proof fn arranged_multiset<S>(hits: Seq<TokenHit<S>>, order: Seq<usize>)
    requires
        ranking::arrangement(hits.len(), order),
        hits.len() <= usize::MAX,
    ensures
        grouping::arranged(hits, order).to_multiset() == hits.to_multiset(),
    decreases hits.len(),
{
    let all = grouping::arranged(hits, order);
    if hits.len() == 0 {
        assert(all =~= hits);
    } else {
        let last = (hits.len() - 1) as usize;
        assert(order.contains(last));
        let q = choose|q: int| 0 <= q < order.len() && order[q] == last;
        let rest = order.remove(q);
        let fewer = hits.drop_last();
        assert forall|a: int| 0 <= a < rest.len() implies (#[trigger] rest[a]) < fewer.len() by {
            let b = if a < q {
                a
            } else {
                a + 1
            };
            assert(rest[a] == order[b]);
            assert(order[b] < hits.len());
            assert(order[b] != order[q]);
        }
        assert forall|i: usize| i < fewer.len() implies rest.contains(i) by {
            assert(order.contains(i));
            let b = choose|b: int| 0 <= b < order.len() && order[b] == i;
            let a = if b < q {
                b
            } else {
                b - 1
            };
            assert(rest[a] == i);
        }
        assert(rest.no_duplicates()) by {
            assert forall|a: int, b: int| 0 <= a < b < rest.len() implies rest[a] != rest[b] by {
                let x = if a < q {
                    a
                } else {
                    a + 1
                };
                let y = if b < q {
                    b
                } else {
                    b + 1
                };
                assert(rest[a] == order[x] && rest[b] == order[y]);
            }
        }
        arranged_multiset(fewer, rest);
        assert(grouping::arranged(fewer, rest) =~= all.remove(q));
        all.to_multiset_ensures();
        fewer.to_multiset_ensures();
        assert(fewer.push(hits.last()) =~= hits);
        assert(all[q] == hits.last());
        let m = all.to_multiset();
        assert(m.count(all[q]) > 0) by {
            assert(all.contains(all[q]));
        }
        assert(m.remove(all[q]).insert(all[q]) =~= m);
    }
}

pub proof fn key_best_of_arranged<S: Score>(
    hits: Seq<TokenHit<S>>,
    order: Seq<usize>,
    pid: i64,
    token: int,
)
    requires
        score::exact_larger::<S>(),
        ranking::arrangement(hits.len(), order),
        hits.len() <= usize::MAX,
    ensures
        key_best(grouping::arranged(hits, order), pid, token) == key_best(hits, pid, token),
{
    let f = |best: Option<S>, hit: TokenHit<S>| better(best, hit, pid, token);
    assert(vstd::seq_lib::commutative_foldl(f)) by {
        assert forall|x: TokenHit<S>, y: TokenHit<S>, v: Option<S>| #[trigger]
            f(f(v, x), y) == f(f(v, y), x) by {
            let (a, b) = (Some(x.score), Some(y.score));
            scoring::larger_of_regroups(v, a, b);
            scoring::larger_of_regroups(v, b, a);
            scoring::larger_of_regroups(a, b, a);
        }
    }
    arranged_multiset(hits, order);
    vstd::seq_lib::lemma_fold_left_permutation(grouping::arranged(hits, order), hits, f, None);
    key_best_is_fold(hits, pid, token);
    key_best_is_fold(grouping::arranged(hits, order), pid, token);
}

/// Keeping the larger of neighbours with the same key keeps the best scores.
pub proof fn key_best_of_maxima<S: Score>(sorted: Seq<TokenHit<S>>, pid: i64, token: int)
    requires
        score::exact_larger::<S>(),
    ensures
        key_best(grouping::maxima(sorted), pid, token) == key_best(sorted, pid, token),
    decreases sorted.len(),
{
    if sorted.len() > 0 {
        let before = sorted.drop_last();
        let done = grouping::maxima(before);
        let hit = sorted.last();
        key_best_of_maxima(before, pid, token);
        let all = grouping::maxima(sorted);
        if done.len() > 0 && grouping::same_key(done.last(), hit) {
            assert(all.drop_last() =~= done.drop_last());
            scoring::larger_of_regroups(
                key_best(done.drop_last(), pid, token),
                Some(done.last().score),
                Some(hit.score),
            );
        } else {
            assert(all.drop_last() =~= done);
        }
    }
}

/// The keys ascend, so that each occurs once.
pub open spec fn keys_ascend<S>(best: Seq<TokenHit<S>>) -> bool {
    forall|i: int, j: int|
        0 <= i < j < best.len() ==> grouping::smaller_key(#[trigger] best[i], #[trigger] best[j])
}

pub open spec fn keys_sorted<S>(hits: Seq<TokenHit<S>>) -> bool {
    forall|i: int, j: int|
        0 <= i < j < hits.len() ==> grouping::smaller_key(#[trigger] hits[i], #[trigger] hits[j])
            || grouping::same_key(hits[i], hits[j])
}

pub proof fn maxima_ascend<S: Score>(sorted: Seq<TokenHit<S>>, bound: int)
    requires
        keys_sorted(sorted),
        forall|i: int| 0 <= i < sorted.len() ==> (#[trigger] sorted[i]).token < bound,
    ensures
        keys_ascend(grouping::maxima(sorted)),
        sorted.len() > 0 ==> grouping::maxima(sorted).len() > 0 && grouping::same_key(
            grouping::maxima(sorted).last(),
            sorted.last(),
        ),
        forall|i: int|
            0 <= i < grouping::maxima(sorted).len() ==> (
            #[trigger] grouping::maxima(sorted)[i]).token < bound,
    decreases sorted.len(),
{
    if sorted.len() > 0 {
        let before = sorted.drop_last();
        assert(keys_sorted(before)) by {
            assert forall|i: int, j: int| 0 <= i < j < before.len() implies grouping::smaller_key(
                #[trigger] before[i],
                #[trigger] before[j],
            ) || grouping::same_key(before[i], before[j]) by {
                assert(before[i] == sorted[i] && before[j] == sorted[j]);
            }
        }
        assert forall|i: int| 0 <= i < before.len() implies (#[trigger] before[i]).token
            < bound by {
            assert(before[i] == sorted[i]);
        }
        maxima_ascend(before, bound);
        let done = grouping::maxima(before);
        let all = grouping::maxima(sorted);
        let hit = sorted.last();
        assert(sorted[sorted.len() - 1].token < bound);
        if done.len() > 0 && grouping::same_key(done.last(), hit) {
            assert forall|i: int, j: int| 0 <= i < j < all.len() implies grouping::smaller_key(
                #[trigger] all[i],
                #[trigger] all[j],
            ) by {
                assert(all[i] == done[i]);
                assert(grouping::same_key(all[j], done[j]));
            }
            assert forall|i: int| 0 <= i < all.len() implies (#[trigger] all[i]).token
                < bound by {
                if i < all.len() - 1 {
                    assert(all[i] == done[i]);
                }
            }
        } else {
            if before.len() > 0 {
                assert(sorted[before.len() - 1] == before.last());
                assert(grouping::smaller_key(before.last(), hit) || grouping::same_key(
                    before.last(),
                    hit,
                ));
            } else {
                assert(done.len() == 0);
            }
            assert forall|i: int, j: int| 0 <= i < j < all.len() implies grouping::smaller_key(
                #[trigger] all[i],
                #[trigger] all[j],
            ) by {
                assert(all[i] == done[i]);
                if j < done.len() {
                    assert(all[j] == done[j]);
                } else if i < done.len() - 1 {
                    assert(grouping::smaller_key(done[i], done[done.len() - 1]));
                }
            }
            assert forall|i: int| 0 <= i < all.len() implies (#[trigger] all[i]).token
                < bound by {
                if i < done.len() {
                    assert(all[i] == done[i]);
                }
            }
        }
    }
}

/// Where keys ascend, a key's best score is that of its one entry.
proof fn key_best_at<S: Score>(best: Seq<TokenHit<S>>, i: int)
    requires
        keys_ascend(best),
        0 <= i < best.len(),
    ensures
        key_best(best, best[i].pid, best[i].token as int) == Some(best[i].score),
    decreases best.len(),
{
    let head = best.drop_last();
    assert(keys_ascend(head)) by {
        assert forall|a: int, b: int| 0 <= a < b < head.len() implies grouping::smaller_key(
            #[trigger] head[a],
            #[trigger] head[b],
        ) by {
            assert(head[a] == best[a] && head[b] == best[b]);
        }
    }
    let (pid, token) = (best[i].pid, best[i].token as int);
    if i < best.len() - 1 {
        assert(head[i] == best[i]);
        key_best_at(head, i);
        assert(grouping::smaller_key(best[i], best[best.len() - 1]));
    } else {
        assert forall|a: int| 0 <= a < head.len() implies !has_key(
            #[trigger] head[a],
            pid,
            token,
        ) by {
            assert(head[a] == best[a]);
            assert(grouping::smaller_key(best[a], best[i]));
        }
        key_best_absent(head, pid, token);
    }
}

proof fn key_best_absent<S: Score>(hits: Seq<TokenHit<S>>, pid: i64, token: int)
    requires
        forall|a: int| 0 <= a < hits.len() ==> !has_key(#[trigger] hits[a], pid, token),
    ensures
        key_best(hits, pid, token) is None,
    decreases hits.len(),
{
    if hits.len() > 0 {
        let head = hits.drop_last();
        assert forall|a: int| 0 <= a < head.len() implies !has_key(
            #[trigger] head[a],
            pid,
            token,
        ) by {
            assert(head[a] == hits[a]);
        }
        assert(!has_key(hits[hits.len() - 1], pid, token));
        key_best_absent(head, pid, token);
    }
}

/// What the entries from `lo` to `hi` add to their tokens' estimates.
spec fn gains<S: Score>(best: Seq<TokenHit<S>>, mse: Seq<S>, lo: int, hi: int) -> S
    decreases hi - lo,
{
    if hi <= lo {
        S::spec_zero()
    } else {
        gains(best, mse, lo, hi - 1).spec_plus(
            best[hi - 1].score.spec_minus(reduction::mse_at(mse, best[hi - 1].token as int)),
        )
    }
}

proof fn gains_are_differences<S: Score>(best: Seq<TokenHit<S>>, mse: Seq<S>, lo: int, hi: int)
    requires
        score::exact_sums::<S>(),
        0 <= lo <= hi,
    ensures
        gains(best, mse, lo, hi).spec_plus(grouping::gain_prefix(best, mse, lo))
            == grouping::gain_prefix(best, mse, hi),
        grouping::gain_prefix(best, mse, hi).spec_minus(grouping::gain_prefix(best, mse, lo))
            == gains(best, mse, lo, hi),
    decreases hi - lo,
{
    let p = grouping::gain_prefix(best, mse, lo);
    if lo < hi {
        gains_are_differences(best, mse, lo, hi - 1);
        let g = gains(best, mse, lo, hi - 1);
        let x = best[hi - 1].score.spec_minus(
            reduction::mse_at(mse, best[hi - 1].token as int),
        );
        score::plus_regroups(g, x, p);
        score::plus_exchanges(x, p);
        score::plus_regroups(g, p, x);
        score::plus_undone(g.spec_plus(x), p);
    } else {
        score::plus_undone(p, p);
        score::plus_undone(S::spec_zero(), p);
    }
}

/// The lists hold, for each token, the best scores of the passage.
pub open spec fn lists_match<S: Score>(
    lists: Seq<Seq<(i64, S)>>,
    best: Seq<TokenHit<S>>,
    pid: i64,
    num_tokens: int,
) -> bool {
    forall|t: int|
        #![trigger lists[t]]
        0 <= t < num_tokens ==> scoring::lookup(lists[t], pid) == key_best(best, pid, t)
}

/// The entries from `a` to `b` are those of the passage.
spec fn is_run<S>(best: Seq<TokenHit<S>>, pid: i64, a: int, b: int) -> bool {
    &&& 0 <= a <= b <= best.len()
    &&& forall|i: int| 0 <= i < best.len() ==> ((#[trigger] best[i]).pid == pid <==> a <= i < b)
}

/// The gains of a passage's entries below token `t`, which are those before `i`,
/// and the estimates below it make up the sum over the tokens below it.
proof fn gains_make_sum<S: Score>(
    lists: Seq<Seq<(i64, S)>>,
    best: Seq<TokenHit<S>>,
    mse: Seq<S>,
    pid: i64,
    a: int,
    b: int,
    i: int,
    t: int,
    num_tokens: int,
)
    requires
        score::exact_sums::<S>(),
        keys_ascend(best),
        is_run(best, pid, a, b),
        a <= i <= b,
        0 <= t <= num_tokens,
        lists_match(lists, best, pid, num_tokens),
        forall|j: int| a <= j < i ==> (#[trigger] best[j]).token < t,
        forall|j: int| i <= j < b ==> t <= (#[trigger] best[j]).token,
    ensures
        gains(best, mse, a, i).spec_plus(reduction::mse_prefix(mse, t)) == scoring::token_sum(
            lists,
            mse,
            pid,
            0,
            t,
        ),
        scoring::present(lists, pid, 0, t) == (a < i),
    decreases t,
{
    if t == 0 {
        if a < i {
            assert(best[a].token < 0);
        }
        score::plus_undone(S::spec_zero(), S::spec_zero());
    } else {
        let last = t - 1;
        let m = reduction::mse_at(mse, last);
        let p = reduction::mse_prefix(mse, last);
        assert(scoring::lookup(lists[last], pid) == key_best(best, pid, last));
        if a < i && best[i - 1].token == last {
            assert forall|j: int| a <= j < i - 1 implies (#[trigger] best[j]).token < last by {
                assert(grouping::smaller_key(best[j], best[i - 1]));
                assert(best[i - 1].pid == pid && best[j].pid == pid);
            }
            gains_make_sum(lists, best, mse, pid, a, b, i - 1, last, num_tokens);
            assert(best[i - 1].pid == pid);
            key_best_at(best, i - 1);
            let g = gains(best, mse, a, i - 1);
            let s = best[i - 1].score;
            let x = s.spec_minus(m);
            // (g + x) + (p + m) is (g + p) + (x + m), which is (g + p) + s.
            score::plus_regroups(g, x, p.spec_plus(m));
            score::plus_regroups(x, p, m);
            score::plus_exchanges(x, p);
            score::plus_regroups(p, x, m);
            score::plus_undone(s, m);
            score::plus_regroups(g, p, s);
        } else {
            assert forall|j: int| i <= j < b implies last <= (#[trigger] best[j]).token by {}
            assert forall|j: int| a <= j < i implies (#[trigger] best[j]).token < last by {
                if j < i - 1 {
                    assert(grouping::smaller_key(best[j], best[i - 1]));
                    assert(best[i - 1].pid == pid && best[j].pid == pid);
                }
            }
            gains_make_sum(lists, best, mse, pid, a, b, i, last, num_tokens);
            assert forall|j: int| 0 <= j < best.len() implies !has_key(
                #[trigger] best[j],
                pid,
                last,
            ) by {
                if best[j].pid == pid {
                    assert(a <= j < b);
                }
            }
            key_best_absent(best, pid, last);
            let g = gains(best, mse, a, i);
            score::plus_regroups(g, p, m);
        }
    }
}

/// The stretches follow each other from the first entry to the `n`th, each of
/// one passage, in ascending order of the passages.
pub open spec fn runs_ascend<S>(best: Seq<TokenHit<S>>, runs: Seq<(int, int)>, n: int) -> bool {
    &&& runs.len() > 0 <==> n > 0
    &&& runs.len() > 0 ==> runs[0].0 == 0 && runs.last().1 == n
    &&& forall|r: int| 0 <= r < runs.len() ==> 0 <= (#[trigger] runs[r]).0 < runs[r].1 <= n
    &&& forall|r: int, i: int|
        0 <= r < runs.len() && runs[r].0 <= i < runs[r].1 ==> #[trigger] best[i].pid == best[(
        #[trigger] runs[r]).0].pid
    &&& forall|q: int, r: int|
        0 <= q < r < runs.len() ==> best[(#[trigger] runs[q]).0].pid < best[(
        #[trigger] runs[r]).0].pid && runs[q].1 <= runs[r].0
    &&& forall|i: int| 0 <= i < n ==> #[trigger] in_some_run(runs, i)
}

pub open spec fn in_some_run(runs: Seq<(int, int)>, i: int) -> bool {
    exists|r: int| #[trigger] in_run(runs, r, i)
}

pub open spec fn in_run(runs: Seq<(int, int)>, r: int, i: int) -> bool {
    0 <= r < runs.len() && runs[r].0 <= i < runs[r].1
}

pub proof fn passage_runs_ascend<S>(best: Seq<TokenHit<S>>, n: int)
    requires
        keys_ascend(best),
        0 <= n <= best.len(),
    ensures
        runs_ascend(best, grouping::passage_runs(best, n), n),
    decreases n,
{
    if n > 0 {
        passage_runs_ascend(best, n - 1);
        let before = grouping::passage_runs(best, n - 1);
        let runs = grouping::passage_runs(best, n);
        let k = before.len() as int;
        if n >= 2 {
            assert(grouping::smaller_key(best[n - 2], best[n - 1]));
            assert(before[k - 1].1 == n - 1);
            assert(best[n - 2].pid == best[before[k - 1].0].pid);
        }
        assert forall|i: int| 0 <= i < n implies #[trigger] in_some_run(runs, i) by {
            if i < n - 1 {
                assert(in_some_run(before, i));
                let r = choose|r: int| #[trigger] in_run(before, r, i);
                assert(in_run(before, r, i));
                assert(in_run(runs, r, i));
            } else {
                assert(in_run(runs, runs.len() - 1, i));
            }
        }
        assert forall|r: int, i: int|
            0 <= r < runs.len() && runs[r].0 <= i < runs[r].1 implies #[trigger] best[i].pid
            == best[(#[trigger] runs[r]).0].pid by {
            if r < before.len() {
                assert(runs[r].0 == before[r].0);
                if i < n - 1 {
                    assert(before[r].0 <= i < before[r].1);
                }
            }
        }
        assert forall|q: int, r: int| 0 <= q < r < runs.len() implies best[(
        #[trigger] runs[q]).0].pid < best[(#[trigger] runs[r]).0].pid && runs[q].1
            <= runs[r].0 by {
            assert(runs[q] == before[q]);
            if r < before.len() {
                assert(runs[r].0 == before[r].0);
                assert(before[q].1 <= before[r].0);
            } else {
                assert(runs[r] == (n - 1, n));
                if q < k - 1 {
                    assert(best[before[q].0].pid < best[before[k - 1].0].pid);
                }
            }
        }
    }
}

/// A passage's score is found at its place in an ascending list.
pub proof fn lookup_at<S>(list: Seq<(i64, S)>, i: int)
    requires
        scoring::ascending(list),
        0 <= i < list.len(),
    ensures
        scoring::lookup(list, list[i].0) == Some(list[i].1),
    decreases list.len(),
{
    ascending_prefix(list);
    lookup_last(list, list[i].0);
    if i < list.len() - 1 {
        assert(list[i].0 < list[list.len() - 1].0);
        assert(list.drop_last()[i] == list[i]);
        lookup_at(list.drop_last(), i);
    }
}

pub proof fn lookup_absent<S>(list: Seq<(i64, S)>, pid: i64)
    requires
        forall|i: int| 0 <= i < list.len() ==> (#[trigger] list[i]).0 != pid,
    ensures
        scoring::lookup(list, pid) is None,
    decreases list.len(),
{
    if list.len() > 0 {
        let tail = list.drop_first();
        assert forall|i: int| 0 <= i < tail.len() implies (#[trigger] tail[i]).0 != pid by {
            assert(tail[i] == list[i + 1]);
        }
        assert(list[0].0 != pid);
        lookup_absent(tail, pid);
    }
}

/// The totals ascend, and give each passage the sum over the tokens.
pub proof fn totals_are_sums<S: Score>(
    lists: Seq<Seq<(i64, S)>>,
    best: Seq<TokenHit<S>>,
    mse: Seq<S>,
    num_tokens: int,
    pid: i64,
)
    requires
        score::exact_sums::<S>(),
        keys_ascend(best),
        0 <= num_tokens,
        forall|i: int| 0 <= i < best.len() ==> (#[trigger] best[i]).token < num_tokens,
        lists_match(lists, best, pid, num_tokens),
    ensures
        scoring::ascending(grouping::passage_totals(best, mse, num_tokens)),
        scoring::lookup(grouping::passage_totals(best, mse, num_tokens), pid)
            == scoring::passage_score(lists, mse, pid, 0, num_tokens),
{
    let n = best.len() as int;
    let runs = grouping::passage_runs(best, n);
    let docs = grouping::passage_totals(best, mse, num_tokens);
    passage_runs_ascend(best, n);
    assert(scoring::ascending(docs)) by {
        assert forall|q: int, r: int| 0 <= q < r < docs.len() implies (#[trigger] docs[q]).0 < (
        #[trigger] docs[r]).0 by {
            assert(best[runs[q].0].pid < best[runs[r].0].pid);
        }
    }
    if exists|i: int| 0 <= i < n && (#[trigger] best[i]).pid == pid {
        let i = choose|i: int| 0 <= i < n && (#[trigger] best[i]).pid == pid;
        assert(in_some_run(runs, i));
        let r = choose|r: int| #[trigger] in_run(runs, r, i);
        assert(in_run(runs, r, i));
        let (a, b) = runs[r];
        assert(best[i].pid == best[runs[r].0].pid);
        assert(is_run(best, pid, a, b)) by {
            assert forall|j: int| 0 <= j < best.len() implies ((#[trigger] best[j]).pid == pid
                <==> a <= j < b) by {
                assert(in_some_run(runs, j));
                let s = choose|s: int| #[trigger] in_run(runs, s, j);
                assert(in_run(runs, s, j));
                assert(best[j].pid == best[runs[s].0].pid);
                if s < r {
                    assert(best[runs[s].0].pid < best[runs[r].0].pid);
                } else if r < s {
                    assert(best[runs[r].0].pid < best[runs[s].0].pid);
                }
            }
        }
        gains_make_sum(lists, best, mse, pid, a, b, b, num_tokens, num_tokens);
        gains_are_differences(best, mse, a, b);
        assert(docs[r].0 == pid);
        lookup_at(docs, r);
    } else {
        assert forall|r: int| 0 <= r < docs.len() implies (#[trigger] docs[r]).0 != pid by {
            assert(0 <= runs[r].0 < n);
            assert(best[runs[r].0].pid != pid);
        }
        lookup_absent(docs, pid);
        assert(is_run(best, pid, 0, 0));
        gains_make_sum(lists, best, mse, pid, 0, 0, 0, num_tokens, num_tokens);
    }
}

/// Ascending lists that give every passage the same score are the same.
proof fn lookups_fix_list<S>(a: Seq<(i64, S)>, b: Seq<(i64, S)>)
    requires
        scoring::ascending(a),
        scoring::ascending(b),
        forall|pid: i64| #[trigger] scoring::lookup(a, pid) == scoring::lookup(b, pid),
    ensures
        a == b,
    decreases a.len(),
{
    if a.len() == 0 {
        if b.len() > 0 {
            assert(scoring::lookup(a, b[0].0) == scoring::lookup(b, b[0].0));
        }
        assert(a =~= b);
    } else {
        let last = a[a.len() - 1];
        lookup_at(a, a.len() - 1);
        assert(scoring::lookup(b, last.0) == Some(last.1));
        if b.len() == 0 {
            lookup_absent(b, last.0);
        }
        let other = b[b.len() - 1];
        lookup_at(b, b.len() - 1);
        assert(scoring::lookup(a, other.0) == Some(other.1));
        if last.0 != other.0 {
            if last.0 < other.0 {
                assert forall|i: int| 0 <= i < a.len() implies (#[trigger] a[i]).0 != other.0 by {
                    assert(i < a.len() - 1 ==> a[i].0 < a[a.len() - 1].0);
                }
                lookup_absent(a, other.0);
            } else {
                assert forall|i: int| 0 <= i < b.len() implies (#[trigger] b[i]).0 != last.0 by {
                    assert(i < b.len() - 1 ==> b[i].0 < b[b.len() - 1].0);
                }
                lookup_absent(b, last.0);
            }
        }
        ascending_prefix(a);
        ascending_prefix(b);
        assert forall|pid: i64| #[trigger] scoring::lookup(a.drop_last(), pid) == scoring::lookup(
            b.drop_last(),
            pid,
        ) by {
            lookup_last(a, pid);
            lookup_last(b, pid);
            assert(scoring::lookup(a, pid) == scoring::lookup(b, pid));
        }
        lookups_fix_list(a.drop_last(), b.drop_last());
        assert(a.drop_last().push(last) =~= a);
        assert(b.drop_last().push(other) =~= b);
    }
}

pub proof fn hit_tokens_bounded<S>(
    cells: Seq<Seq<(i64, S)>>,
    nprobe: int,
    num_tokens: int,
    n: int,
)
    requires
        0 < nprobe,
        0 <= n <= cells.len() <= usize::MAX,
        cells.len() == num_tokens * nprobe,
    ensures
        forall|i: int|
            0 <= i < grouping::token_hits(cells, nprobe, n).len() ==> (
            #[trigger] grouping::token_hits(cells, nprobe, n)[i]).token < num_tokens,
    decreases n,
{
    if n > 0 {
        hit_tokens_bounded(cells, nprobe, num_tokens, n - 1);
        let own = (n - 1) / nprobe;
        assert(0 <= own < num_tokens && own <= n - 1) by (nonlinear_arith)
            requires
                own == (n - 1) / nprobe,
                0 < n <= num_tokens * nprobe,
                0 < nprobe,
        ;
        let before = grouping::token_hits(cells, nprobe, n - 1);
        let all = grouping::token_hits(cells, nprobe, n);
        assert forall|i: int| 0 <= i < all.len() implies (#[trigger] all[i]).token
            < num_tokens by {
            if i < before.len() {
                assert(all[i] == before[i]);
            } else {
                assert(all[i] == grouping::cell_hits(cells[n - 1], own)[i - before.len()]);
            }
        }
    }
}

/// Grouping gives the passages and scores that merging gives, where scores are
/// summed and compared exactly and the passages of each cell ascend.
pub proof fn grouping_agrees_with_merging<S: Score>(
    cells: Seq<Seq<(i64, S)>>,
    mse: Seq<S>,
    nprobe: int,
    num_tokens: int,
    docs: Seq<(i64, S)>,
)
    requires
        score::exact_sums::<S>(),
        score::exact_larger::<S>(),
        0 < nprobe,
        0 < num_tokens,
        cells.len() == num_tokens * nprobe,
        cells.len() <= usize::MAX,
        grouping::token_hits(cells, nprobe, cells.len() as int).len() <= usize::MAX,
        forall|i: int| 0 <= i < cells.len() ==> scoring::ascending(#[trigger] cells[i]),
        grouping::grouped(
            grouping::token_hits(cells, nprobe, cells.len() as int),
            mse,
            num_tokens,
            docs,
        ),
    ensures
        docs == merger::document_list(cells, mse, nprobe, num_tokens),
{
    let hits = grouping::token_hits(cells, nprobe, cells.len() as int);
    let order = choose|order: Seq<usize>| #[trigger]
        grouping::key_sorted(hits, order) && docs == grouping::passage_totals(
            grouping::maxima(grouping::arranged(hits, order)),
            mse,
            num_tokens,
        );
    let sorted = grouping::arranged(hits, order);
    let best = grouping::maxima(sorted);
    let lists = scoring::token_lists(cells, nprobe, num_tokens);
    let merged = merger::document_list(cells, mse, nprobe, num_tokens);
    hit_tokens_bounded(cells, nprobe, num_tokens, cells.len() as int);
    assert(keys_sorted(sorted)) by {
        assert forall|i: int, j: int| 0 <= i < j < sorted.len() implies grouping::smaller_key(
            #[trigger] sorted[i],
            #[trigger] sorted[j],
        ) || grouping::same_key(sorted[i], sorted[j]) by {
            assert(sorted[i] == hits[order[i] as int] && sorted[j] == hits[order[j] as int]);
        }
    }
    assert forall|i: int| 0 <= i < sorted.len() implies (#[trigger] sorted[i]).token
        < num_tokens by {
        assert(order[i] < hits.len());
        assert(sorted[i] == hits[order[i] as int]);
    }
    maxima_ascend(sorted, num_tokens);
    assert forall|pid: i64| #[trigger] scoring::lookup(docs, pid) == scoring::lookup(
        merged,
        pid,
    ) && scoring::ascending(docs) && scoring::ascending(merged) by {
        scoring::document_scores(cells, mse, nprobe, num_tokens, pid);
        assert forall|t: int| #![trigger lists[t]] 0 <= t < num_tokens implies scoring::lookup(
            lists[t],
            pid,
        ) == key_best(best, pid, t) by {
            assert(t * nprobe + nprobe <= num_tokens * nprobe) by (nonlinear_arith)
                requires
                    t < num_tokens,
                    0 < nprobe,
            ;
            token_key_best(cells, nprobe, cells.len() as int, pid, t);
            key_best_of_arranged(hits, order, pid, t);
            key_best_of_maxima(sorted, pid, t);
        }
        totals_are_sums(lists, best, mse, num_tokens, pid);
    }
    assert(scoring::lookup(docs, 0) == scoring::lookup(merged, 0));
    lookups_fix_list(docs, merged);
}

/// The merge on a CUDA device gives the best passages of the same list as the
/// merge on the host, up to the same budget, without the padding.
pub proof fn cuda_agrees_with_host<S: Score>(
    m: ResultMerger,
    cells: Seq<Seq<(i64, S)>>,
    mse: Seq<S>,
    nprobe: int,
    k: int,
    pids: Seq<i64>,
    scores: Seq<S>,
)
    requires
        score::exact_sums::<S>(),
        score::exact_larger::<S>(),
        0 < nprobe,
        0 < cells.len() <= usize::MAX,
        cells.len() as int % nprobe == 0,
        grouping::token_hits(cells, nprobe, cells.len() as int).len() <= usize::MAX,
        forall|i: int| 0 <= i < cells.len() ==> scoring::ascending(#[trigger] cells[i]),
        m.cuda_result(cells, mse, nprobe, k, pids, scores),
    ensures
        ({
            let docs = merger::document_list(cells, mse, nprobe, cells.len() as int / nprobe);
            let budget = merger::result_budget(
                m.config.max_candidates as int,
                docs.len() as int,
                k,
            );
            exists|order: Seq<usize>| #[trigger]
                merger::best(docs, order, budget) && pids == merger::padded_pids(
                    docs,
                    order,
                    order.len() as int,
                ) && scores == merger::padded_scores(docs, order, order.len() as int)
        }),
{
    let n = cells.len() as int;
    let num_tokens = n / nprobe;
    vstd::arithmetic::div_mod::lemma_fundamental_div_mod(n, nprobe);
    assert(n == num_tokens * nprobe && 0 < num_tokens) by (nonlinear_arith)
        requires
            n == nprobe * num_tokens,
            0 < n,
            0 < nprobe,
    ;
    assert((n + nprobe - 1) / nprobe == num_tokens) by (nonlinear_arith)
        requires
            n == num_tokens * nprobe,
            0 < nprobe,
    ;
    let hits = grouping::token_hits(cells, nprobe, n);
    let (docs, order) = choose|docs: Seq<(i64, S)>, order: Seq<usize>|
        {
            &&& #[trigger] grouping::grouped(hits, mse, num_tokens, docs)
            &&& #[trigger] merger::best(
                docs,
                order,
                merger::result_budget(m.config.max_candidates as int, docs.len() as int, k),
            )
            &&& pids == merger::padded_pids(docs, order, order.len() as int)
            &&& scores == merger::padded_scores(docs, order, order.len() as int)
        };
    grouping_agrees_with_merging(cells, mse, nprobe, num_tokens, docs);
}

} // verus!
