//! Sorting of positions, and ranking by score.

use crate::score::Score;
use vstd::prelude::*;

verus! {

/// An order on the positions `0..count`.
pub trait PositionOrder {
    /// The number of positions.
    spec fn count(&self) -> nat;

    /// Whether position `i` comes before position `j`.
    spec fn spec_precedes(&self, i: int, j: int) -> bool;

    fn precedes(&self, i: usize, j: usize) -> (r: bool)
        requires
            i < self.count(),
            j < self.count(),
        ensures
            r == self.spec_precedes(i as int, j as int),
    ;
}

/// Of any two different positions exactly one comes first, and what comes
/// before an earlier position comes before the later ones.
pub open spec fn total_order<O: PositionOrder>(o: O) -> bool {
    &&& forall|i: int| 0 <= i < o.count() ==> !#[trigger] o.spec_precedes(i, i)
    &&& forall|i: int, j: int|
        0 <= i < o.count() && 0 <= j < o.count() && i != j ==> (#[trigger] o.spec_precedes(i, j)
            <==> !o.spec_precedes(j, i))
    &&& forall|i: int, j: int, k: int|
        #![trigger o.spec_precedes(i, j), o.spec_precedes(j, k)]
        0 <= i < o.count() && 0 <= j < o.count() && 0 <= k < o.count() && o.spec_precedes(i, j)
            && o.spec_precedes(j, k) ==> o.spec_precedes(i, k)
}

/// The positions in `order` are different positions below `count`.
pub open spec fn positions(count: nat, order: Seq<usize>) -> bool {
    &&& forall|a: int| 0 <= a < order.len() ==> (#[trigger] order[a]) < count
    &&& order.no_duplicates()
}

/// `order` lists every position below `count` once.
pub open spec fn arrangement(count: nat, order: Seq<usize>) -> bool {
    &&& order.len() == count
    &&& positions(count, order)
    &&& forall|i: usize| i < count ==> order.contains(i)
}

/// Earlier entries of `order` come before later ones.
pub open spec fn in_order<O: PositionOrder>(o: O, order: Seq<usize>) -> bool {
    forall|a: int, b: int|
        0 <= a < b < order.len() ==> o.spec_precedes(
            #[trigger] order[a] as int,
            #[trigger] order[b] as int,
        )
}

/// No entry comes before an earlier one.
spec fn run_sorted<O: PositionOrder>(o: O, order: Seq<usize>) -> bool {
    forall|a: int, b: int|
        0 <= a < b < order.len() ==> !o.spec_precedes(
            #[trigger] order[b] as int,
            #[trigger] order[a] as int,
        )
}

/// The order as a relation on positions.
pub open spec fn relation<O: PositionOrder>(o: O) -> spec_fn(int, int) -> bool {
    |i: int, j: int| o.spec_precedes(i, j)
}

/// Two runs merged into one: the head of the right one goes first where it comes
/// before the head of the left one.
pub open spec fn merged_runs(
    precedes: spec_fn(int, int) -> bool,
    left: Seq<usize>,
    right: Seq<usize>,
) -> Seq<usize>
    decreases left.len() + right.len(),
{
    if left.len() == 0 {
        right
    } else if right.len() == 0 {
        left
    } else if precedes(right[0] as int, left[0] as int) {
        seq![right[0]] + merged_runs(precedes, left, right.drop_first())
    } else {
        seq![left[0]] + merged_runs(precedes, left.drop_first(), right)
    }
}

/// The positions from `lo` to `hi`, sorted by merging their sorted halves. This
/// names one order for any relation, also for one that orders nothing.
pub open spec fn sorted_run(precedes: spec_fn(int, int) -> bool, lo: int, hi: int) -> Seq<usize>
    decreases hi - lo,
{
    if hi <= lo {
        Seq::empty()
    } else if hi == lo + 1 {
        seq![lo as usize]
    } else {
        let mid = lo + (hi - lo) / 2;
        merged_runs(precedes, sorted_run(precedes, lo, mid), sorted_run(precedes, mid, hi))
    }
}

/// Two sorted runs merged into one.
fn merge_runs<O: PositionOrder>(o: &O, left: &Vec<usize>, right: &Vec<usize>) -> (r: Vec<usize>)
    requires
        forall|a: int| 0 <= a < left@.len() ==> (#[trigger] left@[a]) < o.count(),
        forall|a: int| 0 <= a < right@.len() ==> (#[trigger] right@[a]) < o.count(),
        left@.len() + right@.len() <= usize::MAX,
    ensures
        r@ == merged_runs(relation(*o), left@, right@),
        r@.to_multiset() == left@.to_multiset().add(right@.to_multiset()),
        r@.len() == left@.len() + right@.len(),
        total_order(*o) && run_sorted(*o, left@) && run_sorted(*o, right@) ==> run_sorted(*o, r@),
{
    let mut r: Vec<usize> = Vec::new();
    let mut i: usize = 0;
    let mut j: usize = 0;
    let ghost fine = total_order(*o) && run_sorted(*o, left@) && run_sorted(*o, right@);
    proof {
        left@.to_multiset_ensures();
        right@.to_multiset_ensures();
        r@.to_multiset_ensures();
        assert(left@.take(0) =~= Seq::<usize>::empty());
        assert(right@.take(0) =~= Seq::<usize>::empty());
        assert(r@.to_multiset() =~= left@.take(0).to_multiset().add(right@.take(0).to_multiset()));
        assert(left@.skip(0) =~= left@);
        assert(right@.skip(0) =~= right@);
    }
    let ghost goal = merged_runs(relation(*o), left@, right@);
    assert(r@ + goal =~= goal);
    while i < left.len() || j < right.len()
        invariant
            i <= left@.len(),
            j <= right@.len(),
            left@.len() + right@.len() <= usize::MAX,
            forall|a: int| 0 <= a < left@.len() ==> (#[trigger] left@[a]) < o.count(),
            forall|a: int| 0 <= a < right@.len() ==> (#[trigger] right@[a]) < o.count(),
            r@.len() == i + j,
            goal == r@ + merged_runs(relation(*o), left@.skip(i as int), right@.skip(j as int)),
            r@.to_multiset() == left@.take(i as int).to_multiset().add(
                right@.take(j as int).to_multiset(),
            ),
            fine ==> total_order(*o),
            fine ==> run_sorted(*o, left@),
            fine ==> run_sorted(*o, right@),
            fine ==> run_sorted(*o, r@),
            forall|a: int| 0 <= a < r@.len() ==> (#[trigger] r@[a]) < o.count(),
            fine ==> forall|a: int, b: int|
                0 <= a < r@.len() && i <= b < left@.len() ==> !o.spec_precedes(
                    #[trigger] left@[b] as int,
                    #[trigger] r@[a] as int,
                ),
            fine ==> forall|a: int, b: int|
                0 <= a < r@.len() && j <= b < right@.len() ==> !o.spec_precedes(
                    #[trigger] right@[b] as int,
                    #[trigger] r@[a] as int,
                ),
        decreases left@.len() - i + right@.len() - j,
    {
        let take_left: bool = if i >= left.len() {
            false
        } else if j >= right.len() {
            true
        } else {
            !o.precedes(right[j], left[i])
        };
        let ghost prev = r@;
        let ghost (rest_left, rest_right) = (left@.skip(i as int), right@.skip(j as int));
        if take_left {
            let x: usize = left[i];
            r.push(x);
            proof {
                assert(rest_left[0] == x);
                assert(rest_left.drop_first() =~= left@.skip(i + 1));
                let rest = merged_runs(relation(*o), left@.skip(i + 1), rest_right);
                if rest_right.len() == 0 {
                    assert(rest =~= left@.skip(i + 1));
                    assert(rest_left =~= seq![x] + rest);
                } else {
                    assert(rest_right[0] == right@[j as int]);
                }
                assert(merged_runs(relation(*o), rest_left, rest_right) == seq![x] + rest);
                assert(prev + (seq![x] + rest) =~= r@ + rest);
                prev.to_multiset_ensures();
                left@.take(i as int).to_multiset_ensures();
                assert(left@.take(i + 1) =~= left@.take(i as int).push(x));
                assert(r@.to_multiset() =~= left@.take(i + 1).to_multiset().add(
                    right@.take(j as int).to_multiset(),
                ));
                if fine {
                    assert(forall|b: int|
                        j <= b < right@.len() ==> !o.spec_precedes(
                            #[trigger] right@[b] as int,
                            x as int,
                        )) by {
                        if j < right@.len() {
                            let y = right@[j as int];
                            assert(!o.spec_precedes(y as int, x as int));
                        }
                    }
                }
            }
            i += 1;
        } else {
            let y: usize = right[j];
            r.push(y);
            proof {
                assert(rest_right[0] == y);
                assert(rest_right.drop_first() =~= right@.skip(j + 1));
                let rest = merged_runs(relation(*o), rest_left, right@.skip(j + 1));
                if rest_left.len() == 0 {
                    assert(rest =~= right@.skip(j + 1));
                    assert(rest_right =~= seq![y] + rest);
                } else {
                    assert(rest_left[0] == left@[i as int]);
                }
                assert(merged_runs(relation(*o), rest_left, rest_right) == seq![y] + rest);
                assert(prev + (seq![y] + rest) =~= r@ + rest);
                prev.to_multiset_ensures();
                right@.take(j as int).to_multiset_ensures();
                assert(right@.take(j + 1) =~= right@.take(j as int).push(y));
                assert(r@.to_multiset() =~= left@.take(i as int).to_multiset().add(
                    right@.take(j + 1).to_multiset(),
                ));
                if fine {
                    assert(forall|b: int|
                        i <= b < left@.len() ==> !o.spec_precedes(
                            #[trigger] left@[b] as int,
                            y as int,
                        )) by {
                        if i < left@.len() {
                            let x = left@[i as int];
                            assert(o.spec_precedes(y as int, x as int));
                        }
                    }
                }
            }
            j += 1;
        }
    }
    proof {
        assert(left@.take(i as int) =~= left@);
        assert(right@.take(j as int) =~= right@);
        assert(left@.skip(i as int).len() == 0);
        assert(r@ + right@.skip(j as int) =~= r@);
    }
    r
}

/// The positions from `lo` to `hi`, sorted.
fn sort_range<O: PositionOrder>(o: &O, lo: usize, hi: usize) -> (r: Vec<usize>)
    requires
        lo <= hi <= o.count(),
    ensures
        r@ == sorted_run(relation(*o), lo as int, hi as int),
        r@.len() == hi - lo,
        r@.to_multiset() == Seq::new((hi - lo) as nat, |i: int| (lo + i) as usize).to_multiset(),
        total_order(*o) ==> run_sorted(*o, r@),
    decreases hi - lo,
{
    if hi - lo <= 1 {
        let mut r: Vec<usize> = Vec::new();
        if lo < hi {
            r.push(lo);
        }
        assert(r@ =~= Seq::new((hi - lo) as nat, |i: int| (lo + i) as usize));
        return r;
    }
    let mid: usize = lo + (hi - lo) / 2;
    let left = sort_range(o, lo, mid);
    let right = sort_range(o, mid, hi);
    proof {
        let ls = Seq::new((mid - lo) as nat, |i: int| (lo + i) as usize);
        let rs = Seq::new((hi - mid) as nat, |i: int| (mid + i) as usize);
        members_in_range(left@, ls, lo as int, mid as int);
        members_in_range(right@, rs, mid as int, hi as int);
        assert(ls + rs =~= Seq::new((hi - lo) as nat, |i: int| (lo + i) as usize));
        vstd::seq_lib::lemma_multiset_commutative(ls, rs);
    }
    merge_runs(o, &left, &right)
}

/// A rearrangement of the range from `lo` to `hi` holds only its members, once each.
proof fn members_in_range(order: Seq<usize>, range: Seq<usize>, lo: int, hi: int)
    requires
        0 <= lo <= hi <= usize::MAX,
        range == Seq::new((hi - lo) as nat, |i: int| (lo + i) as usize),
        order.to_multiset() == range.to_multiset(),
    ensures
        forall|a: int| 0 <= a < order.len() ==> lo <= #[trigger] order[a] < hi,
        forall|x: usize| lo <= x < hi ==> order.contains(x),
        order.no_duplicates(),
{
    order.to_multiset_ensures();
    range.to_multiset_ensures();
    assert forall|a: int| 0 <= a < order.len() implies lo <= #[trigger] order[a] < hi by {
        assert(order.contains(order[a]));
        assert(order.to_multiset().count(order[a]) > 0);
        assert(range.contains(order[a]));
    }
    assert forall|x: usize| lo <= x < hi implies order.contains(x) by {
        assert(range[x - lo] == x);
        assert(range.contains(x));
        assert(order.to_multiset().count(x) > 0);
    }
    assert(range.no_duplicates());
    range.lemma_multiset_has_no_duplicates();
    order.lemma_multiset_has_no_duplicates_conv();
}

/// All positions, sorted.
pub fn sorted_positions<O: PositionOrder>(o: &O, count: usize) -> (order: Vec<usize>)
    requires
        count == o.count(),
    ensures
        order@ == sorted_run(relation(*o), 0, count as int),
        arrangement(count as nat, order@),
        total_order(*o) ==> in_order(*o, order@),
{
    let order = sort_range(o, 0, count);
    proof {
        let range = Seq::new(count as nat, |i: int| (0 + i) as usize);
        assert(range =~= Seq::new((count - 0) as nat, |i: int| (0usize + i) as usize));
        members_in_range(order@, range, 0, count as int);
    }
    order
}

/// The order of descending scores, with ties in the order of the positions.
pub struct ScoreOrder<S> {
    pub scores: Vec<S>,
}

impl<S: Score> PositionOrder for ScoreOrder<S> {
    open spec fn count(&self) -> nat {
        self.scores@.len()
    }

    open spec fn spec_precedes(&self, i: int, j: int) -> bool {
        before(self.scores@, i, j)
    }

    fn precedes(&self, i: usize, j: usize) -> (r: bool) {
        self.scores[i].exceeds(self.scores[j]) || (!self.scores[j].exceeds(self.scores[i]) && i
            < j)
    }
}

/// Whether position `i` ranks before position `j`: by the higher score, and
/// among level scores by the smaller position.
pub open spec fn before<S: Score>(scores: Seq<S>, i: int, j: int) -> bool {
    scores[i].spec_exceeds(scores[j]) || (!scores[j].spec_exceeds(scores[i]) && i < j)
}

/// The positions of the `num_results` highest scores, best first; of all of them
/// where there are fewer.
pub open spec fn top_order<S: Score>(scores: Seq<S>, num_results: int) -> Seq<usize> {
    let all = sorted_run(
        |i: int, j: int| before(scores, i, j),
        0,
        scores.len() as int,
    );
    if num_results < all.len() {
        all.take(num_results)
    } else {
        all
    }
}

/// The positions `order` are those of the `order.len()` highest scores, best first.
pub open spec fn ranked<S: Score>(scores: Seq<S>, order: Seq<usize>) -> bool {
    &&& forall|a: int, b: int|
        0 <= a < b < order.len() ==> before(
            scores,
            #[trigger] order[a] as int,
            #[trigger] order[b] as int,
        )
    &&& forall|a: int, i: int|
        #![trigger before(scores, order[a] as int, i)]
        0 <= a < order.len() && 0 <= i < scores.len() && !order.contains(i as usize) ==> before(
            scores,
            order[a] as int,
            i,
        )
}

/// Rankable scores give a total order.
pub proof fn before_is_total_order<S: Score>(o: ScoreOrder<S>)
    requires
        crate::score::rankable(o.scores@),
    ensures
        total_order(o),
{
    let scores = o.scores@;
    assert forall|i: int, j: int|
        0 <= i < o.count() && 0 <= j < o.count() && i != j implies (#[trigger] o.spec_precedes(i, j)
        <==> !o.spec_precedes(j, i)) by {
        if scores[i].spec_exceeds(scores[j]) && scores[j].spec_exceeds(scores[i]) {
            assert(scores[i].spec_exceeds(scores[i]));
        }
    }
    assert forall|i: int, j: int, k: int|
        #![trigger o.spec_precedes(i, j), o.spec_precedes(j, k)]
        0 <= i < o.count() && 0 <= j < o.count() && 0 <= k < o.count() && o.spec_precedes(i, j)
            && o.spec_precedes(j, k) implies o.spec_precedes(i, k) by {
        let ij = scores[i].spec_exceeds(scores[j]);
        let jk = scores[j].spec_exceeds(scores[k]);
        let ik = scores[i].spec_exceeds(scores[k]);
        let ki = scores[k].spec_exceeds(scores[i]);
        let kj = scores[k].spec_exceeds(scores[j]);
        let ji = scores[j].spec_exceeds(scores[i]);
        if ij && jk {
        } else if ij {
            assert(ik || kj);
        } else if jk {
            assert(ji || ik);
        } else if ki {
            assert(kj || ji);
        }
    }
}

/// The positions of the `num_results` highest scores, best first; of all of
/// them where there are fewer.
pub fn top_positions<S: Score>(scores: Vec<S>, num_results: usize) -> (order: Vec<usize>)
    ensures
        order@ == top_order(scores@, num_results as int),
        order@.len() == if num_results < scores@.len() {
            num_results as int
        } else {
            scores@.len() as int
        },
        positions(scores@.len(), order@),
        crate::score::rankable(scores@) ==> ranked(scores@, order@),
{
    let count: usize = scores.len();
    let o = ScoreOrder { scores };
    let mut order = sorted_positions(&o, count);
    let ghost all = order@;
    order.truncate(num_results);
    proof {
        assert(order@ =~= all.take(order@.len() as int));
        assert(relation(o) =~= |i: int, j: int| before(scores@, i, j));
        assert(order@ =~= top_order(scores@, num_results as int));
        if crate::score::rankable(scores@) {
            before_is_total_order(o);
            assert forall|a: int, b: int| 0 <= a < b < order@.len() implies before(
                scores@,
                #[trigger] order@[a] as int,
                #[trigger] order@[b] as int,
            ) by {
                assert(o.spec_precedes(all[a] as int, all[b] as int));
            }
            assert forall|a: int, i: int|
                #![trigger before(scores@, order@[a] as int, i)]
                0 <= a < order@.len() && 0 <= i < scores@.len() && !order@.contains(
                    i as usize,
                ) implies before(scores@, order@[a] as int, i) by {
                assert(all.contains(i as usize));
                let b = choose|b: int| 0 <= b < all.len() && all[b] == i as usize;
                if b < order@.len() {
                    assert(order@[b] == i as usize);
                }
                assert(o.spec_precedes(all[a] as int, all[b] as int));
            }
        }
    }
    order
}

} // verus!
