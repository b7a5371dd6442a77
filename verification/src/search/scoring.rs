//! What the merge computes: a passage scores the sum, over the query tokens, of
//! its best candidate for the token, or of the token's estimate where it has none.

use crate::score;
use crate::score::Score;
use crate::search::combiner;
use crate::search::combiner::{Combiner, ReduceMaxCombiner, ReduceSumMseCombiner};
use crate::search::merger;
use crate::search::reduction;
use vstd::prelude::*;

verus! {

/// The passages of a list ascend, so that each occurs once.
pub open spec fn ascending<S>(list: Seq<(i64, S)>) -> bool {
    forall|i: int, j: int| 0 <= i < j < list.len() ==> (#[trigger] list[i]).0 < (#[trigger] list[j]).0
}

/// The score of a passage in a list.
pub open spec fn lookup<S>(list: Seq<(i64, S)>, pid: i64) -> Option<S>
    decreases list.len(),
{
    if list.len() == 0 {
        None
    } else if list[0].0 == pid {
        Some(list[0].1)
    } else {
        lookup(list.drop_first(), pid)
    }
}

/// Two scores of a passage as a combiner makes them one.
pub open spec fn joined<S: Score, C: Combiner<S>>(a: Option<S>, b: Option<S>, c: C) -> Option<S> {
    match (a, b) {
        (Some(x), Some(y)) => Some(c.spec_combine(x, y)),
        (Some(x), None) => Some(c.spec_lhs(x)),
        (None, Some(y)) => Some(c.spec_rhs(y)),
        (None, None) => None,
    }
}

proof fn ascending_tail<S>(list: Seq<(i64, S)>)
    requires
        ascending(list),
        list.len() > 0,
    ensures
        ascending(list.drop_first()),
        forall|i: int| 0 <= i < list.drop_first().len() ==> list[0].0 < (#[trigger] list.drop_first()[i]).0,
{
    let tail = list.drop_first();
    assert forall|i: int| 0 <= i < tail.len() implies list[0].0 < (#[trigger] tail[i]).0 by {
        assert(tail[i] == list[i + 1]);
    }
    assert forall|i: int, j: int| 0 <= i < j < tail.len() implies (#[trigger] tail[i]).0 < (
    #[trigger] tail[j]).0 by {
        assert(tail[i] == list[i + 1] && tail[j] == list[j + 1]);
    }
}

/// A passage below all of a list is not in it.
proof fn lookup_below<S>(list: Seq<(i64, S)>, pid: i64)
    requires
        forall|i: int| 0 <= i < list.len() ==> pid < (#[trigger] list[i]).0,
    ensures
        lookup(list, pid) is None,
    decreases list.len(),
{
    if list.len() > 0 {
        let tail = list.drop_first();
        assert forall|i: int| 0 <= i < tail.len() implies pid < (#[trigger] tail[i]).0 by {
            assert(tail[i] == list[i + 1]);
        }
        lookup_below(tail, pid);
    }
}

proof fn lookup_left<S: Score, C: Combiner<S>>(list: Seq<(i64, S)>, c: C, pid: i64)
    ensures
        lookup(combiner::merged(list, Seq::empty(), c), pid) == joined(
            lookup(list, pid),
            None,
            c,
        ),
    decreases list.len(),
{
    let none = Seq::<(i64, S)>::empty();
    if list.len() > 0 {
        assert(combiner::merged(list, none, c).drop_first() =~= combiner::merged(
            list.drop_first(),
            none,
            c,
        ));
        lookup_left(list.drop_first(), c, pid);
    }
}

proof fn lookup_right<S: Score, C: Combiner<S>>(list: Seq<(i64, S)>, c: C, pid: i64)
    ensures
        lookup(combiner::merged(Seq::empty(), list, c), pid) == joined(
            None,
            lookup(list, pid),
            c,
        ),
    decreases list.len(),
{
    let none = Seq::<(i64, S)>::empty();
    if list.len() > 0 {
        assert(combiner::merged(none, list, c).drop_first() =~= combiner::merged(
            none,
            list.drop_first(),
            c,
        ));
        lookup_right(list.drop_first(), c, pid);
    }
}

/// An entry put before a list whose passages are all larger.
proof fn lookup_front<S>(entry: (i64, S), rest: Seq<(i64, S)>, pid: i64)
    requires
        ascending(rest),
        forall|i: int| 0 <= i < rest.len() ==> entry.0 < (#[trigger] rest[i]).0,
    ensures
        ascending(seq![entry] + rest),
        lookup(seq![entry] + rest, pid) == (if pid == entry.0 {
            Some(entry.1)
        } else {
            lookup(rest, pid)
        }),
{
    let all = seq![entry] + rest;
    assert(all.drop_first() =~= rest);
    assert forall|i: int, j: int| 0 <= i < j < all.len() implies (#[trigger] all[i]).0 < (
    #[trigger] all[j]).0 by {
        assert(all[j] == rest[j - 1]);
        if i > 0 {
            assert(all[i] == rest[i - 1]);
        }
    }
}

/// A merge of ascending lists ascends, holds the passages of both, and gives
/// each the combination of its scores.
pub proof fn merged_scores<S: Score, C: Combiner<S>>(
    a: Seq<(i64, S)>,
    b: Seq<(i64, S)>,
    c: C,
    pid: i64,
)
    requires
        ascending(a),
        ascending(b),
    ensures
        ascending(combiner::merged(a, b, c)),
        lookup(combiner::merged(a, b, c), pid) == joined(lookup(a, pid), lookup(b, pid), c),
{
    merged_scores_above(a, b, c, pid, None);
}

/// As above; and where both lists are above a bound, so is the merge.
proof fn merged_scores_above<S: Score, C: Combiner<S>>(
    a: Seq<(i64, S)>,
    b: Seq<(i64, S)>,
    c: C,
    pid: i64,
    bound: Option<i64>,
)
    requires
        ascending(a),
        ascending(b),
        bound matches Some(m) ==> (forall|i: int| 0 <= i < a.len() ==> m < (#[trigger] a[i]).0),
        bound matches Some(m) ==> (forall|i: int| 0 <= i < b.len() ==> m < (#[trigger] b[i]).0),
    ensures
        ascending(combiner::merged(a, b, c)),
        lookup(combiner::merged(a, b, c), pid) == joined(lookup(a, pid), lookup(b, pid), c),
        bound matches Some(m) ==> (forall|i: int|
            0 <= i < combiner::merged(a, b, c).len() ==> m < (
            #[trigger] combiner::merged(a, b, c)[i]).0),
    decreases a.len() + b.len(),
{
    let all = combiner::merged(a, b, c);
    if a.len() == 0 {
        assert(a =~= Seq::empty());
        lookup_right(b, c, pid);
    } else if b.len() == 0 {
        assert(b =~= Seq::empty());
        lookup_left(a, c, pid);
    } else {
        ascending_tail(a);
        ascending_tail(b);
        let (entry, rest) = if a[0].0 == b[0].0 {
            merged_scores_above(a.drop_first(), b.drop_first(), c, pid, Some(a[0].0));
            (
                (a[0].0, c.spec_combine(a[0].1, b[0].1)),
                combiner::merged(a.drop_first(), b.drop_first(), c),
            )
        } else if a[0].0 < b[0].0 {
            assert forall|i: int| 0 <= i < b.len() implies a[0].0 < (#[trigger] b[i]).0 by {
                assert(b[0].0 <= b[i].0);
            }
            merged_scores_above(a.drop_first(), b, c, pid, Some(a[0].0));
            lookup_below(b, a[0].0);
            ((a[0].0, c.spec_lhs(a[0].1)), combiner::merged(a.drop_first(), b, c))
        } else {
            assert forall|i: int| 0 <= i < a.len() implies b[0].0 < (#[trigger] a[i]).0 by {
                assert(a[0].0 <= a[i].0);
            }
            merged_scores_above(a, b.drop_first(), c, pid, Some(b[0].0));
            lookup_below(a, b[0].0);
            ((b[0].0, c.spec_rhs(b[0].1)), combiner::merged(a, b.drop_first(), c))
        };
        lookup_front(entry, rest, pid);
        assert(all == seq![entry] + rest);
        if let Some(m) = bound {
            assert(m < a[0].0 && m < b[0].0);
            assert forall|i: int| 0 <= i < all.len() implies m < (#[trigger] all[i]).0 by {
                if i > 0 {
                    assert(all[i] == rest[i - 1]);
                }
            }
        }
    }
}

/// The larger of two scores, where there are two.
pub open spec fn larger_of<S: Score>(a: Option<S>, b: Option<S>) -> Option<S> {
    joined(a, b, ReduceMaxCombiner)
}

/// The best score of a passage in the lists from `lo` to `hi`.
pub open spec fn best_score<S: Score>(
    lists: Seq<Seq<(i64, S)>>,
    pid: i64,
    lo: int,
    hi: int,
) -> Option<S>
    decreases hi - lo,
{
    if hi <= lo {
        None
    } else {
        larger_of(best_score(lists, pid, lo, hi - 1), lookup(lists[hi - 1], pid))
    }
}

pub proof fn larger_of_regroups<S: Score>(a: Option<S>, b: Option<S>, c: Option<S>)
    requires
        score::exact_larger::<S>(),
    ensures
        larger_of(larger_of(a, b), c) == larger_of(a, larger_of(b, c)),
        larger_of(a, b) == larger_of(b, a),
{
    if let (Some(x), Some(y)) = (a, b) {
        score::larger_regroups(x, y, y);
        if let Some(z) = c {
            score::larger_regroups(x, y, z);
        }
    }
}

proof fn best_score_splits<S: Score>(
    lists: Seq<Seq<(i64, S)>>,
    pid: i64,
    lo: int,
    mid: int,
    hi: int,
)
    requires
        score::exact_larger::<S>(),
        lo <= mid <= hi,
    ensures
        best_score(lists, pid, lo, hi) == larger_of(
            best_score(lists, pid, lo, mid),
            best_score(lists, pid, mid, hi),
        ),
    decreases hi - mid,
{
    if mid < hi {
        best_score_splits(lists, pid, lo, mid, hi - 1);
        let a = best_score(lists, pid, lo, mid);
        let b = best_score(lists, pid, mid, hi - 1);
        let c = lookup(lists[hi - 1], pid);
        larger_of_regroups(a, b, c);
    }
}

proof fn max_tree_scores<S: Score>(
    lists: Seq<Seq<(i64, S)>>,
    begin: int,
    n: int,
    lhs: int,
    step: int,
    pid: i64,
)
    requires
        score::exact_larger::<S>(),
        0 <= begin,
        0 <= lhs < n,
        begin + n <= lists.len(),
        reduction::is_power(step),
        forall|i: int| 0 <= i < lists.len() ==> ascending(#[trigger] lists[i]),
    ensures
        ({
            let tree = reduction::tree(
                lists,
                begin,
                1,
                n,
                lhs,
                step,
                reduction::max_combiners(),
            );
            &&& ascending(tree)
            &&& lookup(tree, pid) == best_score(
                lists,
                pid,
                begin + lhs,
                if lhs + step < n {
                    begin + lhs + step
                } else {
                    begin + n
                },
            )
        }),
    decreases step,
{
    let comb = reduction::max_combiners();
    if step <= 1 {
        reveal_with_fuel(best_score, 2);
        assert(lists[begin + lhs * 1] == lists[begin + lhs]);
    } else {
        let half = step / 2;
        max_tree_scores(lists, begin, n, lhs, half, pid);
        if lhs + half < n {
            max_tree_scores(lists, begin, n, lhs + half, half, pid);
            let l = reduction::tree(lists, begin, 1, n, lhs, half, comb);
            let r = reduction::tree(lists, begin, 1, n, lhs + half, half, comb);
            merged_scores(l, r, comb(lhs, half), pid);
            best_score_splits(
                lists,
                pid,
                begin + lhs,
                begin + lhs + half,
                if lhs + step < n {
                    begin + lhs + step
                } else {
                    begin + n
                },
            );
        }
    }
}

/// A token's list ascends and holds the passages of its cells, each with its
/// best score among them.
pub proof fn token_list_scores<S: Score>(
    cells: Seq<Seq<(i64, S)>>,
    nprobe: int,
    token: int,
    pid: i64,
)
    requires
        score::exact_larger::<S>(),
        0 < nprobe,
        0 <= token,
        token * nprobe + nprobe <= cells.len(),
        forall|i: int| 0 <= i < cells.len() ==> ascending(#[trigger] cells[i]),
    ensures
        ascending(merger::token_list(cells, nprobe, token)),
        lookup(merger::token_list(cells, nprobe, token), pid) == best_score(
            cells,
            pid,
            token * nprobe,
            token * nprobe + nprobe,
        ),
{
    assert(0 <= token * nprobe) by (nonlinear_arith)
        requires
            0 <= token,
            0 < nprobe,
    ;
    reduction::top_step_is_power(nprobe, 1);
    max_tree_scores(
        cells,
        token * nprobe,
        nprobe,
        0,
        reduction::top_step(nprobe, 1),
        pid,
    );
}

/// What a token adds to the score of a passage: its score in the token's list,
/// or the token's estimate.
pub open spec fn token_score<S: Score>(
    lists: Seq<Seq<(i64, S)>>,
    mse: Seq<S>,
    pid: i64,
    token: int,
) -> S {
    match lookup(lists[token], pid) {
        Some(x) => x,
        None => if 0 <= token < mse.len() {
            mse[token]
        } else {
            S::spec_zero()
        },
    }
}

/// The sum of what the tokens from `lo` to `hi` add.
pub open spec fn token_sum<S: Score>(
    lists: Seq<Seq<(i64, S)>>,
    mse: Seq<S>,
    pid: i64,
    lo: int,
    hi: int,
) -> S
    decreases hi - lo,
{
    if hi <= lo {
        S::spec_zero()
    } else {
        token_sum(lists, mse, pid, lo, hi - 1).spec_plus(token_score(lists, mse, pid, hi - 1))
    }
}

/// Whether one of the lists from `lo` to `hi` holds the passage.
pub open spec fn present<S>(lists: Seq<Seq<(i64, S)>>, pid: i64, lo: int, hi: int) -> bool
    decreases hi - lo,
{
    if hi <= lo {
        false
    } else {
        present(lists, pid, lo, hi - 1) || lookup(lists[hi - 1], pid) is Some
    }
}

/// The score of a passage over the tokens from `lo` to `hi`, if one of them has it.
pub open spec fn passage_score<S: Score>(
    lists: Seq<Seq<(i64, S)>>,
    mse: Seq<S>,
    pid: i64,
    lo: int,
    hi: int,
) -> Option<S> {
    if present(lists, pid, lo, hi) {
        Some(token_sum(lists, mse, pid, lo, hi))
    } else {
        None
    }
}

proof fn token_sum_splits<S: Score>(
    lists: Seq<Seq<(i64, S)>>,
    mse: Seq<S>,
    pid: i64,
    lo: int,
    mid: int,
    hi: int,
)
    requires
        score::exact_sums::<S>(),
        lo <= mid <= hi,
    ensures
        token_sum(lists, mse, pid, lo, hi) == token_sum(lists, mse, pid, lo, mid).spec_plus(
            token_sum(lists, mse, pid, mid, hi),
        ),
        present(lists, pid, lo, hi) == (present(lists, pid, lo, mid) || present(
            lists,
            pid,
            mid,
            hi,
        )),
    decreases hi - mid,
{
    if mid < hi {
        token_sum_splits(lists, mse, pid, lo, mid, hi - 1);
        let a = token_sum(lists, mse, pid, lo, mid);
        let b = token_sum(lists, mse, pid, mid, hi - 1);
        let c = token_score(lists, mse, pid, hi - 1);
        score::plus_regroups(a, b, c);
    } else {
        let a = token_sum(lists, mse, pid, lo, mid);
        score::plus_undone(a, a);
    }
}

/// Where no token has the passage, the sum is that of the estimates.
proof fn absent_sum<S: Score>(
    lists: Seq<Seq<(i64, S)>>,
    mse: Seq<S>,
    pid: i64,
    lo: int,
    hi: int,
)
    requires
        score::exact_sums::<S>(),
        0 <= lo <= hi,
        !present(lists, pid, lo, hi),
    ensures
        token_sum(lists, mse, pid, lo, hi) == reduction::mse_prefix(mse, hi).spec_minus(
            reduction::mse_prefix(mse, lo),
        ),
        token_sum(lists, mse, pid, lo, hi).spec_plus(reduction::mse_prefix(mse, lo))
            == reduction::mse_prefix(mse, hi),
    decreases hi - lo,
{
    let p = reduction::mse_prefix(mse, lo);
    if lo < hi {
        absent_sum(lists, mse, pid, lo, hi - 1);
        let s = token_sum(lists, mse, pid, lo, hi - 1);
        let m = reduction::mse_at(mse, hi - 1);
        score::plus_regroups(s, m, p);
        score::plus_exchanges(m, p);
        score::plus_regroups(s, p, m);
        score::plus_undone(s.spec_plus(m), p);
    } else {
        score::plus_undone(p, p);
        score::plus_undone(S::spec_zero(), p);
    }
}

proof fn sum_tree_scores<S: Score>(
    lists: Seq<Seq<(i64, S)>>,
    mse: Seq<S>,
    n: int,
    lhs: int,
    step: int,
    pid: i64,
)
    requires
        score::exact_sums::<S>(),
        0 <= lhs < n <= lists.len(),
        reduction::is_power(step),
        forall|i: int| 0 <= i < lists.len() ==> ascending(#[trigger] lists[i]),
    ensures
        ({
            let tree = reduction::tree(
                lists,
                0,
                1,
                n,
                lhs,
                step,
                reduction::mse_combiners(mse, n),
            );
            &&& ascending(tree)
            &&& lookup(tree, pid) == passage_score(
                lists,
                mse,
                pid,
                lhs,
                if lhs + step < n {
                    lhs + step
                } else {
                    n
                },
            )
        }),
    decreases step,
{
    let comb = reduction::mse_combiners(mse, n);
    if step <= 1 {
        reveal_with_fuel(token_sum, 2);
        reveal_with_fuel(present, 2);
        assert(lists[0 + lhs * 1] == lists[lhs]);
        let x = token_score(lists, mse, pid, lhs);
        score::plus_undone(x, x);
    } else {
        let half = step / 2;
        sum_tree_scores(lists, mse, n, lhs, half, pid);
        if lhs + half < n {
            let mid = lhs + half;
            let hi = if lhs + step < n {
                lhs + step
            } else {
                n
            };
            sum_tree_scores(lists, mse, n, mid, half, pid);
            let l = reduction::tree(lists, 0, 1, n, lhs, half, comb);
            let r = reduction::tree(lists, 0, 1, n, mid, half, comb);
            merged_scores(l, r, comb(lhs, half), pid);
            token_sum_splits(lists, mse, pid, lhs, mid, hi);
            if !present(lists, pid, lhs, mid) {
                absent_sum(lists, mse, pid, lhs, mid);
            }
            if !present(lists, pid, mid, hi) {
                absent_sum(lists, mse, pid, mid, hi);
            }
            let c: ReduceSumMseCombiner<S> = comb(lhs, half);
            assert(c.rhs_mse == reduction::mse_prefix(mse, hi).spec_minus(
                reduction::mse_prefix(mse, mid),
            ));
            assert(c.lhs_mse == reduction::mse_prefix(mse, mid).spec_minus(
                reduction::mse_prefix(mse, lhs),
            ));
        }
    }
}

/// The tokens' best scores of every passage, one list per token.
pub open spec fn token_lists<S: Score>(
    cells: Seq<Seq<(i64, S)>>,
    nprobe: int,
    num_tokens: int,
) -> Seq<Seq<(i64, S)>> {
    Seq::new(num_tokens as nat, |t: int| merger::token_list(cells, nprobe, t))
}

/// The merged list ascends and holds the passages of all cells. Each scores
/// the sum over the tokens of its best score in the token's cells, or of the
/// token's estimate where none of them holds it.
pub proof fn document_scores<S: Score>(
    cells: Seq<Seq<(i64, S)>>,
    mse: Seq<S>,
    nprobe: int,
    num_tokens: int,
    pid: i64,
)
    requires
        score::exact_sums::<S>(),
        score::exact_larger::<S>(),
        0 < nprobe,
        0 < num_tokens,
        num_tokens * nprobe <= cells.len(),
        forall|i: int| 0 <= i < cells.len() ==> ascending(#[trigger] cells[i]),
    ensures
        ({
            let lists = token_lists(cells, nprobe, num_tokens);
            let docs = merger::document_list(cells, mse, nprobe, num_tokens);
            &&& ascending(docs)
            &&& lookup(docs, pid) == passage_score(lists, mse, pid, 0, num_tokens)
            &&& forall|t: int|
                #![trigger lists[t]]
                0 <= t < num_tokens ==> lookup(lists[t], pid) == best_score(
                    cells,
                    pid,
                    t * nprobe,
                    t * nprobe + nprobe,
                )
        }),
{
    let lists = token_lists(cells, nprobe, num_tokens);
    assert forall|t: int| #![trigger lists[t]] 0 <= t < num_tokens implies ascending(lists[t])
        && lookup(lists[t], pid) == best_score(cells, pid, t * nprobe, t * nprobe + nprobe) by {
        assert(t * nprobe + nprobe <= num_tokens * nprobe) by (nonlinear_arith)
            requires
                t < num_tokens,
                0 < nprobe,
        ;
        token_list_scores(cells, nprobe, t, pid);
    }
    reduction::top_step_is_power(num_tokens, 1);
    sum_tree_scores(lists, mse, num_tokens, 0, reduction::top_step(num_tokens, 1), pid);
    assert(lists == Seq::new(
        num_tokens as nat,
        |t: int| merger::token_list(cells, nprobe, t),
    ));
}

/// Whether one of the first lists, `stride` slots apart from `begin` on, from
/// position `lo` to `hi`, holds the passage.
spec fn held<S>(
    lists: Seq<Seq<(i64, S)>>,
    begin: int,
    pid: i64,
    lo: int,
    hi: int,
) -> bool {
    exists|i: int| lo <= i < hi && (#[trigger] lookup(lists[begin + i], pid)) is Some
}

/// Whatever the combiners do to scores, a tree ascends and holds the passages
/// of its lists.
proof fn tree_passages<S: Score, C: Combiner<S>>(
    lists: Seq<Seq<(i64, S)>>,
    begin: int,
    n: int,
    lhs: int,
    step: int,
    comb: spec_fn(int, int) -> C,
    pid: i64,
)
    requires
        0 <= begin,
        0 <= lhs < n,
        begin + n <= lists.len(),
        reduction::is_power(step),
        forall|i: int| 0 <= i < lists.len() ==> ascending(#[trigger] lists[i]),
    ensures
        ascending(reduction::tree(lists, begin, 1, n, lhs, step, comb)),
        (lookup(reduction::tree(lists, begin, 1, n, lhs, step, comb), pid) is Some) == held(
            lists,
            begin,
            pid,
            lhs,
            if lhs + step < n {
                lhs + step
            } else {
                n
            },
        ),
    decreases step,
{
    if step <= 1 {
        assert(lists[begin + lhs * 1] == lists[begin + lhs]);
        if lookup(lists[begin + lhs], pid) is Some {
            assert(held(lists, begin, pid, lhs, lhs + 1));
        }
    } else {
        let half = step / 2;
        let mid = lhs + half;
        let hi = if lhs + step < n {
            lhs + step
        } else {
            n
        };
        tree_passages(lists, begin, n, lhs, half, comb, pid);
        if mid < n {
            tree_passages(lists, begin, n, mid, half, comb, pid);
            merged_scores(
                reduction::tree(lists, begin, 1, n, lhs, half, comb),
                reduction::tree(lists, begin, 1, n, mid, half, comb),
                comb(lhs, half),
                pid,
            );
            assert(held(lists, begin, pid, lhs, hi) == (held(lists, begin, pid, lhs, mid) || held(
                lists,
                begin,
                pid,
                mid,
                hi,
            )));
        }
    }
}

/// Whatever the arithmetic of the scores, the merged list ascends, and it holds
/// a passage exactly where one of the cells does.
pub proof fn document_passages<S: Score>(
    cells: Seq<Seq<(i64, S)>>,
    mse: Seq<S>,
    nprobe: int,
    num_tokens: int,
    pid: i64,
)
    requires
        0 < nprobe,
        0 < num_tokens,
        num_tokens * nprobe == cells.len(),
        forall|i: int| 0 <= i < cells.len() ==> ascending(#[trigger] cells[i]),
    ensures
        ascending(merger::document_list(cells, mse, nprobe, num_tokens)),
        lookup(merger::document_list(cells, mse, nprobe, num_tokens), pid) is Some <==> exists|
            c: int,
        |
            0 <= c < cells.len() && (#[trigger] lookup(cells[c], pid)) is Some,
{
    let lists = token_lists(cells, nprobe, num_tokens);
    let comb = reduction::max_combiners();
    assert forall|t: int| #![trigger lists[t]] 0 <= t < num_tokens implies ascending(lists[t]) && (
    lookup(lists[t], pid) is Some) == held(cells, t * nprobe, pid, 0, nprobe) by {
        assert(t * nprobe + nprobe <= num_tokens * nprobe && 0 <= t * nprobe)
            by (nonlinear_arith)
            requires
                0 <= t < num_tokens,
                0 < nprobe,
        ;
        reduction::top_step_is_power(nprobe, 1);
        tree_passages(
            cells,
            t * nprobe,
            nprobe,
            0,
            reduction::top_step(nprobe, 1),
            comb,
            pid,
        );
    }
    reduction::top_step_is_power(num_tokens, 1);
    tree_passages(
        lists,
        0,
        num_tokens,
        0,
        reduction::top_step(num_tokens, 1),
        reduction::mse_combiners(mse, num_tokens),
        pid,
    );
    assert(lists == Seq::new(
        num_tokens as nat,
        |t: int| merger::token_list(cells, nprobe, t),
    ));
    if held(lists, 0, pid, 0, num_tokens) {
        let t = choose|t: int|
            0 <= t < num_tokens && (#[trigger] lookup(lists[0 + t], pid)) is Some;
        assert(lists[0 + t] == lists[t]);
        assert(held(cells, t * nprobe, pid, 0, nprobe));
        let i = choose|i: int|
            0 <= i < nprobe && (#[trigger] lookup(cells[t * nprobe + i], pid)) is Some;
        assert(0 <= t * nprobe + i < num_tokens * nprobe) by (nonlinear_arith)
            requires
                0 <= t < num_tokens,
                0 <= i < nprobe,
        ;
        assert(lookup(cells[t * nprobe + i], pid) is Some);
    }
    if exists|c: int| 0 <= c < cells.len() && (#[trigger] lookup(cells[c], pid)) is Some {
        let c = choose|c: int| 0 <= c < cells.len() && (#[trigger] lookup(cells[c], pid)) is Some;
        let t = c / nprobe;
        let i = c % nprobe;
        assert(c == t * nprobe + i && 0 <= i < nprobe && 0 <= t < num_tokens)
            by (nonlinear_arith)
            requires
                t == c / nprobe,
                i == c % nprobe,
                0 <= c < num_tokens * nprobe,
                0 < nprobe,
        ;
        assert(lookup(cells[t * nprobe + i], pid) is Some);
        assert(held(cells, t * nprobe, pid, 0, nprobe));
        assert(lists[t] == lists[0 + t]);
        assert(lookup(lists[0 + t], pid) is Some);
        assert(held(lists, 0, pid, 0, num_tokens));
    }
}

} // verus!
