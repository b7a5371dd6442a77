//! Deleted passages, and their removal from search results.

use crate::score::Score;
use crate::utils::types::SearchResult;
use std::collections::HashSet;
use vstd::prelude::*;

verus! {

broadcast use vstd::std_specs::hash::group_hash_axioms;

/// The IDs of deleted passages, which search leaves out of its results.
pub struct Tombstones {
    pub deleted: HashSet<i64>,
}

impl View for Tombstones {
    type V = Set<i64>;

    open spec fn view(&self) -> Set<i64> {
        self.deleted@
    }
}

/// The positions, among the first `n`, of passages that are not deleted.
pub open spec fn surviving(pids: Seq<i64>, deleted: Set<i64>, n: int) -> Seq<int>
    decreases n,
{
    if n <= 0 {
        Seq::empty()
    } else if deleted.contains(pids[n - 1]) {
        surviving(pids, deleted, n - 1)
    } else {
        surviving(pids, deleted, n - 1).push(n - 1)
    }
}

/// The first `k` of a sequence, or all where there are fewer.
pub open spec fn first<T>(s: Seq<T>, k: int) -> Seq<T> {
    if k < s.len() {
        s.take(k)
    } else {
        s
    }
}

/// The elements at the given positions.
pub open spec fn at<T>(s: Seq<T>, positions: Seq<int>) -> Seq<T> {
    positions.map_values(|i: int| s[i])
}

/// The smaller of two lengths.
pub open spec fn shorter(a: nat, b: nat) -> int {
    if a < b {
        a as int
    } else {
        b as int
    }
}

/// The best `k` passages that are not deleted: those of a result that are not
/// deleted, in its order, up to `k`.
pub open spec fn filtered<S>(
    result: SearchResult<S>,
    deleted: Set<i64>,
    k: int,
    r: SearchResult<S>,
) -> bool {
    &&& r.query_id == result.query_id
    &&& if deleted == Set::<i64>::empty() {
        &&& r.passage_ids@ == first(result.passage_ids@, k)
        &&& r.scores@ == first(result.scores@, k)
    } else {
        let kept = first(
            surviving(
                result.passage_ids@,
                deleted,
                shorter(result.passage_ids@.len(), result.scores@.len()),
            ),
            k,
        );
        &&& r.passage_ids@ == at(result.passage_ids@, kept)
        &&& r.scores@ == at(result.scores@, kept)
    }
}

pub proof fn surviving_inside(pids: Seq<i64>, deleted: Set<i64>, n: int)
    requires
        0 <= n <= pids.len(),
    ensures
        surviving(pids, deleted, n).len() <= n,
        forall|i: int|
            0 <= i < surviving(pids, deleted, n).len() ==> 0 <= #[trigger] surviving(
                pids,
                deleted,
                n,
            )[i] < n && !deleted.contains(pids[surviving(pids, deleted, n)[i]]),
        forall|i: int, j: int|
            0 <= i < j < surviving(pids, deleted, n).len() ==> #[trigger] surviving(
                pids,
                deleted,
                n,
            )[i] < #[trigger] surviving(pids, deleted, n)[j],
        forall|p: int|
            0 <= p < n && !deleted.contains(#[trigger] pids[p]) ==> surviving(
                pids,
                deleted,
                n,
            ).contains(p),
    decreases n,
{
    if 0 < n {
        surviving_inside(pids, deleted, n - 1);
        let before = surviving(pids, deleted, n - 1);
        let after = surviving(pids, deleted, n);
        assert forall|p: int| 0 <= p < n && !deleted.contains(#[trigger] pids[p]) implies
            after.contains(p) by {
            if p < n - 1 {
                assert(before.contains(p));
                let i = choose|i: int| 0 <= i < before.len() && before[i] == p;
                assert(after[i] == p);
            } else {
                assert(after[after.len() - 1] == p);
            }
        }
    }
}

/// Positions before `m` survive among the first `m` as they do among the first `n`.
proof fn surviving_prefix(pids: Seq<i64>, deleted: Set<i64>, m: int, n: int)
    requires
        0 <= m <= n <= pids.len(),
    ensures
        surviving(pids, deleted, m).len() <= surviving(pids, deleted, n).len(),
        surviving(pids, deleted, n).take(surviving(pids, deleted, m).len() as int) == surviving(
            pids,
            deleted,
            m,
        ),
    decreases n,
{
    if m < n {
        surviving_prefix(pids, deleted, m, n - 1);
        let a = surviving(pids, deleted, m);
        let b = surviving(pids, deleted, n - 1);
        let c = surviving(pids, deleted, n);
        assert(c.take(a.len() as int) =~= b.take(a.len() as int));
    } else {
        assert(surviving(pids, deleted, n).take(surviving(pids, deleted, m).len() as int)
            =~= surviving(pids, deleted, m));
    }
}

/// No deleted passage is in a filtered result, what is left keeps its order, and
/// no passage is left out that is not deleted, unless there are `k` before it.
pub proof fn filtering_removes_deleted<S>(
    result: SearchResult<S>,
    deleted: Set<i64>,
    k: int,
    r: SearchResult<S>,
)
    requires
        result.passage_ids@.len() == result.scores@.len(),
        0 <= k,
        filtered(result, deleted, k, r),
    ensures
        r.passage_ids@.len() == r.scores@.len() <= k,
        forall|i: int| 0 <= i < r.passage_ids@.len() ==> !deleted.contains(#[trigger] r.passage_ids@[i]),
        r.passage_ids@.len() < k ==> forall|p: int|
            0 <= p < result.passage_ids@.len() && !deleted.contains(
                #[trigger] result.passage_ids@[p],
            ) ==> r.passage_ids@.contains(result.passage_ids@[p]),
{
    let pids = result.passage_ids@;
    let n = pids.len() as int;
    surviving_inside(pids, deleted, n);
    let all = surviving(pids, deleted, n);
    let kept = first(all, k);
    if deleted == Set::<i64>::empty() {
        assert forall|p: int|
            r.passage_ids@.len() < k && 0 <= p < n implies r.passage_ids@.contains(
            #[trigger] pids[p],
        ) by {
            assert(r.passage_ids@[p] == pids[p]);
        }
    } else {
        assert forall|i: int| 0 <= i < r.passage_ids@.len() implies !deleted.contains(
            #[trigger] r.passage_ids@[i],
        ) by {
            assert(kept[i] == all[i]);
        }
        assert forall|p: int|
            r.passage_ids@.len() < k && 0 <= p < n && !deleted.contains(
                #[trigger] pids[p],
            ) implies r.passage_ids@.contains(pids[p]) by {
            assert(kept == all);
            let i = choose|i: int| 0 <= i < all.len() && all[i] == p;
            assert(r.passage_ids@[i] == pids[p]);
        }
    }
}

/// In a filtered result every passage keeps its score, and its place among the
/// others. The result holds what stands at ascending positions of the given one, at
/// most `k` of them. A position is passed over only where its passage is deleted, and
/// the result ends before the given one does only where it holds `k`. Passages beyond
/// the last score are not among the given ones.
pub proof fn filtering_keeps_scores<S>(
    result: SearchResult<S>,
    deleted: Set<i64>,
    k: int,
    r: SearchResult<S>,
) -> (picked: Seq<int>)
    requires
        result.passage_ids@.len() == result.scores@.len() || deleted != Set::<i64>::empty(),
        0 <= k,
        filtered(result, deleted, k, r),
    ensures
        r.query_id == result.query_id,
        picked.len() == r.passage_ids@.len(),
        picked.len() == r.scores@.len(),
        picked.len() <= k,
        forall|i: int|
            0 <= i < picked.len() ==> 0 <= #[trigger] picked[i] < result.passage_ids@.len()
                && picked[i] < result.scores@.len() && r.passage_ids@[i] == result.passage_ids@[picked[i]] && r.scores@[i]
                == result.scores@[picked[i]] && !deleted.contains(r.passage_ids@[i]),
        forall|i: int, j: int|
            0 <= i < j < picked.len() ==> #[trigger] picked[i] < #[trigger] picked[j],
        forall|i: int, q: int|
            #![trigger picked[i], result.passage_ids@[q]]
            0 <= i < picked.len() && 0 <= q < picked[i] && !picked.contains(q)
                ==> deleted.contains(result.passage_ids@[q]),
        picked.len() < k ==> forall|q: int|
            0 <= q < result.passage_ids@.len() && q < result.scores@.len() && !picked.contains(q)
                ==> deleted.contains(#[trigger] result.passage_ids@[q]),
{
    let pids = result.passage_ids@;
    let n = if pids.len() < result.scores@.len() {
        pids.len() as int
    } else {
        result.scores@.len() as int
    };
    if deleted == Set::<i64>::empty() {
        let count = if k < n {
            k
        } else {
            n
        };
        let picked = Seq::new(count as nat, |i: int| i);
        assert forall|q: int| 0 <= q < count implies #[trigger] picked.contains(q) by {
            assert(picked[q] == q);
        }
        picked
    } else {
        surviving_inside(pids, deleted, n);
        let all = surviving(pids, deleted, n);
        let picked = first(all, k);
        assert forall|i: int| 0 <= i < picked.len() implies #[trigger] picked[i] == all[i] by {}
        assert forall|i: int, q: int|
            #![trigger picked[i], pids[q]]
            0 <= i < picked.len() && 0 <= q < picked[i] && !picked.contains(
                q,
            ) implies deleted.contains(pids[q]) by {
            if !deleted.contains(pids[q]) {
                let j = choose|j: int| 0 <= j < all.len() && all[j] == q;
                assert(picked[i] == all[i]);
                if j < i {
                    assert(picked[j] == q);
                } else if i < j {
                    assert(all[i] < all[j]);
                }
            }
        }
        picked
    }
}

/// Where nothing is deleted, a result is cut at `k`, and is otherwise as it was.
pub proof fn nothing_deleted_cuts_at_k<S>(result: SearchResult<S>, k: int, r: SearchResult<S>)
    requires
        0 <= k,
        filtered(result, Set::empty(), k, r),
    ensures
        r.query_id == result.query_id,
        r.passage_ids@.len() == k || (r.passage_ids@.len() < k && r.passage_ids@.len()
            == result.passage_ids@.len()),
        r.passage_ids@.len() <= result.passage_ids@.len(),
        r.scores@.len() == k || (r.scores@.len() < k && r.scores@.len() == result.scores@.len()),
        r.scores@.len() <= result.scores@.len(),
        forall|i: int|
            0 <= i < r.passage_ids@.len() ==> #[trigger] r.passage_ids@[i] == result.passage_ids@[i],
        forall|i: int| 0 <= i < r.scores@.len() ==> #[trigger] r.scores@[i] == result.scores@[i],
{
}

impl Tombstones {
    /// No deleted passages.
    pub fn new() -> (r: Self)
        ensures
            r@ == Set::<i64>::empty(),
    {
        Tombstones { deleted: HashSet::new() }
    }

    pub fn is_empty(&self) -> (r: bool)
        ensures
            r == (self@ == Set::<i64>::empty()),
    {
        let r = self.deleted.is_empty();
        proof {
            if r {
                assert(self@ =~= Set::<i64>::empty());
            }
        }
        r
    }

    pub fn contains(&self, pid: i64) -> (r: bool)
        ensures
            r == self@.contains(pid),
    {
        self.deleted.contains(&pid)
    }

    /// Marks passages as deleted.
    pub fn extend(&mut self, passage_ids: &Vec<i64>)
        ensures
            final(self)@ == old(self)@.union(passage_ids@.to_set()),
    {
        let mut i: usize = 0;
        assert(self@ =~= old(self)@.union(passage_ids@.take(0).to_set()));
        while i < passage_ids.len()
            invariant
                i <= passage_ids@.len(),
                self@ == old(self)@.union(passage_ids@.take(i as int).to_set()),
            decreases passage_ids@.len() - i,
        {
            self.deleted.insert(passage_ids[i]);
            proof {
                let before = passage_ids@.take(i as int);
                let after = passage_ids@.take(i + 1);
                assert(after =~= before.push(passage_ids@[i as int]));
                assert forall|x: i64| after.to_set().contains(x) <==> before.to_set().contains(x)
                    || x == passage_ids@[i as int] by {
                    if before.contains(x) {
                        let j = choose|j: int| 0 <= j < before.len() && before[j] == x;
                        assert(after[j] == x);
                    }
                    if x == passage_ids@[i as int] {
                        assert(after[i as int] == x);
                    }
                }
                assert(self@ =~= old(self)@.union(after.to_set()));
            }
            i += 1;
        }
        assert(passage_ids@.take(passage_ids@.len() as int) =~= passage_ids@);
    }

    /// Marks passages as not deleted.
    pub fn remove(&mut self, passage_ids: &Vec<i64>)
        ensures
            final(self)@ == old(self)@.difference(passage_ids@.to_set()),
    {
        let mut i: usize = 0;
        assert(self@ =~= old(self)@.difference(passage_ids@.take(0).to_set()));
        while i < passage_ids.len()
            invariant
                i <= passage_ids@.len(),
                self@ == old(self)@.difference(passage_ids@.take(i as int).to_set()),
            decreases passage_ids@.len() - i,
        {
            self.deleted.remove(&passage_ids[i]);
            proof {
                let before = passage_ids@.take(i as int);
                let after = passage_ids@.take(i + 1);
                assert(after =~= before.push(passage_ids@[i as int]));
                assert forall|x: i64| after.to_set().contains(x) <==> before.to_set().contains(x)
                    || x == passage_ids@[i as int] by {
                    if before.contains(x) {
                        let j = choose|j: int| 0 <= j < before.len() && before[j] == x;
                        assert(after[j] == x);
                    }
                    if x == passage_ids@[i as int] {
                        assert(after[i as int] == x);
                    }
                }
                assert(self@ =~= old(self)@.difference(after.to_set()));
            }
            i += 1;
        }
        assert(passage_ids@.take(passage_ids@.len() as int) =~= passage_ids@);
    }

    /// Forgets all deletions.
    pub fn clear(&mut self)
        ensures
            final(self)@ == Set::<i64>::empty(),
    {
        self.deleted.clear();
    }

    /// Filter tombstoned PIDs and truncate to k.
    /// Results arrive sorted by score descending from the merger, so collecting
    /// stops as soon as there are k non-deleted entries.
    pub fn filter_result<S: Score>(&self, result: SearchResult<S>, k: usize) -> (r: SearchResult<S>)
        ensures
            filtered(result, self@, k as int, r),
    {
        if self.is_empty() {
            let mut passage_ids = result.passage_ids;
            let mut scores = result.scores;
            passage_ids.truncate(k);
            scores.truncate(k);
            assert(passage_ids@ =~= first(result.passage_ids@, k as int));
            assert(scores@ =~= first(result.scores@, k as int));
            return SearchResult { passage_ids, scores, query_id: result.query_id };
        }
        let n: usize = if result.passage_ids.len() < result.scores.len() {
            result.passage_ids.len()
        } else {
            result.scores.len()
        };
        let ghost pids = result.passage_ids@;
        let ghost all = surviving(pids, self@, n as int);
        let mut passage_ids: Vec<i64> = Vec::new();
        let mut scores: Vec<S> = Vec::new();
        let mut i: usize = 0;
        while i < n && passage_ids.len() < k
            invariant
                i <= n,
                n <= result.passage_ids@.len(),
                n <= result.scores@.len(),
                pids == result.passage_ids@,
                passage_ids@.len() <= k,
                passage_ids@ == at(result.passage_ids@, surviving(pids, self@, i as int)),
                scores@ == at(result.scores@, surviving(pids, self@, i as int)),
            decreases n - i,
        {
            let pid: i64 = result.passage_ids[i];
            if !self.contains(pid) {
                passage_ids.push(pid);
                scores.push(result.scores[i]);
            }
            i += 1;
            assert(passage_ids@ =~= at(
                result.passage_ids@,
                surviving(pids, self@, i as int),
            ));
            assert(scores@ =~= at(result.scores@, surviving(pids, self@, i as int)));
        }
        proof {
            surviving_prefix(pids, self@, i as int, n as int);
            assert(first(all, k as int) =~= surviving(pids, self@, i as int));
        }
        SearchResult { passage_ids, scores, query_id: result.query_id }
    }
}

} // verus!
