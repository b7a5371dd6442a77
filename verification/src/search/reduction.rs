//! Pairwise reduction of many candidate lists to one.

use crate::score::Score;
use crate::search::combiner;
use crate::search::combiner::{Combiner, ReduceMaxCombiner, ReduceSumMseCombiner};
use vstd::prelude::*;

verus! {

/// How far `x` is below `n`.
pub open spec fn gap(n: int, x: int) -> nat {
    if x < n {
        (n - x) as nat
    } else {
        0
    }
}

/// What one round writes for the list at position `lhs` of `n`: its merge with
/// the list `step` positions further on, or the list itself where there is none.
pub open spec fn paired<S: Score, C: Combiner<S>>(
    src: Seq<Seq<(i64, S)>>,
    begin: int,
    stride: int,
    n: int,
    step: int,
    lhs: int,
    comb: spec_fn(int, int) -> C,
) -> Seq<(i64, S)> {
    if lhs + step < n {
        combiner::merged(src[begin + lhs * stride], src[begin + (lhs + step) * stride], comb(lhs, step))
    } else {
        src[begin + lhs * stride]
    }
}

/// One round over `n` lists, which stand `stride` slots apart from slot `begin`
/// on: from position `lhs` on, every second list, `step` being the distance,
/// is written to its slot in `dst`.
pub open spec fn reduce_round<S: Score, C: Combiner<S>>(
    src: Seq<Seq<(i64, S)>>,
    dst: Seq<Seq<(i64, S)>>,
    begin: int,
    stride: int,
    n: int,
    step: int,
    lhs: int,
    comb: spec_fn(int, int) -> C,
) -> Seq<Seq<(i64, S)>>
    decreases gap(n, lhs),
{
    if lhs >= n || step <= 0 {
        dst
    } else {
        let slot = begin + lhs * stride;
        reduce_round(
            src,
            dst.update(slot, paired(src, begin, stride, n, step, lhs, comb)),
            begin,
            stride,
            n,
            step,
            lhs + 2 * step,
            comb,
        )
    }
}

/// All rounds, each with twice the distance of the one before. A round reads
/// what the last one wrote, and writes over what the last one read. The result
/// is what the last round wrote, and what it read.
pub open spec fn reduce_rounds<S: Score, C: Combiner<S>>(
    cur: Seq<Seq<(i64, S)>>,
    other: Seq<Seq<(i64, S)>>,
    begin: int,
    stride: int,
    n: int,
    step: int,
    comb: spec_fn(int, int) -> C,
) -> (Seq<Seq<(i64, S)>>, Seq<Seq<(i64, S)>>)
    decreases gap(n, step),
{
    if step >= n || step <= 0 {
        (cur, other)
    } else {
        reduce_rounds(
            reduce_round(cur, other, begin, stride, n, step, 0, comb),
            cur,
            begin,
            stride,
            n,
            2 * step,
            comb,
        )
    }
}

/// The larger of two lengths.
pub open spec fn longer(a: nat, b: nat) -> nat {
    if a < b {
        b
    } else {
        a
    }
}

/// The room that one round needs in the slot at position `lhs`: that of both
/// lists, before entries of the same passage become one.
pub open spec fn paired_room<S>(
    src: Seq<Seq<(i64, S)>>,
    begin: int,
    stride: int,
    n: int,
    step: int,
    lhs: int,
) -> nat {
    if lhs + step < n {
        src[begin + lhs * stride].len() + src[begin + (lhs + step) * stride].len()
    } else {
        src[begin + lhs * stride].len()
    }
}

/// The room that slots have been given once a round is through, from position
/// `lhs` on.
pub open spec fn round_rooms<S>(
    src: Seq<Seq<(i64, S)>>,
    rooms: Seq<nat>,
    begin: int,
    stride: int,
    n: int,
    step: int,
    lhs: int,
) -> Seq<nat>
    decreases gap(n, lhs),
{
    if lhs >= n || step <= 0 {
        rooms
    } else {
        let slot = begin + lhs * stride;
        round_rooms(
            src,
            rooms.update(
                slot,
                longer(rooms[slot], paired_room(src, begin, stride, n, step, lhs)),
            ),
            begin,
            stride,
            n,
            step,
            lhs + 2 * step,
        )
    }
}

/// The room that slots have been given once all rounds are through: in the buffer
/// that the last round wrote, and in the one that it read.
pub open spec fn rounds_rooms<S: Score, C: Combiner<S>>(
    cur: Seq<Seq<(i64, S)>>,
    other: Seq<Seq<(i64, S)>>,
    cur_rooms: Seq<nat>,
    other_rooms: Seq<nat>,
    begin: int,
    stride: int,
    n: int,
    step: int,
    comb: spec_fn(int, int) -> C,
) -> (Seq<nat>, Seq<nat>)
    decreases gap(n, step),
{
    if step >= n || step <= 0 {
        (cur_rooms, other_rooms)
    } else {
        rounds_rooms(
            reduce_round(cur, other, begin, stride, n, step, 0, comb),
            cur,
            round_rooms(cur, other_rooms, begin, stride, n, step, 0),
            cur_rooms,
            begin,
            stride,
            n,
            2 * step,
            comb,
        )
    }
}

/// No slot has been given room.
pub open spec fn no_rooms(len: nat) -> Seq<nat> {
    Seq::new(len, |i: int| 0nat)
}

/// How many rounds `n` lists take from distance `step` on.
pub open spec fn num_rounds(n: int, step: int) -> nat
    decreases gap(n, step),
{
    if step >= n || step <= 0 {
        0
    } else {
        1 + num_rounds(n, 2 * step)
    }
}

/// Lists of one token are combined by their larger scores.
pub open spec fn max_combiners() -> spec_fn(int, int) -> ReduceMaxCombiner {
    |lhs: int, step: int| ReduceMaxCombiner
}

/// The estimate of a token, zero where none is given.
pub open spec fn mse_at<S: Score>(mse: Seq<S>, token: int) -> S {
    if 0 <= token < mse.len() {
        mse[token]
    } else {
        S::spec_zero()
    }
}

/// The sum of the first `n` estimates.
pub open spec fn mse_prefix<S: Score>(mse: Seq<S>, n: int) -> S
    decreases n,
{
    if n <= 0 {
        S::spec_zero()
    } else {
        mse_prefix(mse, n - 1).spec_plus(mse_at(mse, n - 1))
    }
}

/// Lists of different tokens are combined by summing: the tokens from `lhs` on
/// make up the left side, those `step` further on the right side, and each
/// side's estimate is the sum of its tokens' estimates.
pub open spec fn mse_combiners<S: Score>(
    mse: Seq<S>,
    num_tokens: int,
) -> spec_fn(int, int) -> ReduceSumMseCombiner<S> {
    |lhs: int, step: int|
        ReduceSumMseCombiner {
            lhs_mse: mse_prefix(mse, lhs + step).spec_minus(mse_prefix(mse, lhs)),
            rhs_mse: mse_prefix(
                mse,
                if lhs + 2 * step < num_tokens {
                    lhs + 2 * step
                } else {
                    num_tokens
                },
            ).spec_minus(mse_prefix(mse, lhs + step)),
        }
}

/// The number of candidates in the lists at positions `lo` to `hi`.
pub open spec fn span<S>(
    lists: Seq<Seq<(i64, S)>>,
    begin: int,
    stride: int,
    lo: int,
    hi: int,
) -> nat
    decreases hi - lo,
{
    if hi <= lo {
        0
    } else {
        span(lists, begin, stride, lo, hi - 1) + lists[begin + (hi - 1) * stride].len()
    }
}

pub proof fn span_splits<S>(
    lists: Seq<Seq<(i64, S)>>,
    begin: int,
    stride: int,
    lo: int,
    mid: int,
    hi: int,
)
    requires
        lo <= mid <= hi,
    ensures
        span(lists, begin, stride, lo, hi) == span(lists, begin, stride, lo, mid) + span(
            lists,
            begin,
            stride,
            mid,
            hi,
        ),
    decreases hi - mid,
{
    if mid < hi {
        span_splits(lists, begin, stride, lo, mid, hi - 1);
    }
}

/// After the rounds up to distance `step`, a list at a multiple of `step` holds
/// no more than the original lists that went into it.
pub open spec fn bounded<S>(
    cur: Seq<Seq<(i64, S)>>,
    lists: Seq<Seq<(i64, S)>>,
    begin: int,
    stride: int,
    n: int,
    step: int,
) -> bool {
    forall|m: int|
        #![trigger cur[begin + (m * step) * stride]]
        0 <= m && m * step < n ==> cur[begin + (m * step) * stride].len() <= span(
            lists,
            begin,
            stride,
            m * step,
            if m * step + step < n {
                m * step + step
            } else {
                n
            },
        )
}

/// A round leaves every slot before its first one as it was.
pub proof fn round_frame<S: Score, C: Combiner<S>>(
    src: Seq<Seq<(i64, S)>>,
    dst: Seq<Seq<(i64, S)>>,
    begin: int,
    stride: int,
    n: int,
    step: int,
    lhs: int,
    comb: spec_fn(int, int) -> C,
)
    requires
        0 <= begin,
        0 < stride,
        0 <= lhs,
        begin + (n - 1) * stride < dst.len(),
    ensures
        reduce_round(src, dst, begin, stride, n, step, lhs, comb).len() == dst.len(),
        forall|i: int|
            0 <= i < begin + lhs * stride && i < dst.len() ==> #[trigger] reduce_round(
                src,
                dst,
                begin,
                stride,
                n,
                step,
                lhs,
                comb,
            )[i] == dst[i],
    decreases gap(n, lhs),
{
    if lhs >= n || step <= 0 {
    } else {
        let slot = begin + lhs * stride;
        let next = dst.update(slot, paired(src, begin, stride, n, step, lhs, comb));
        slots_increase(begin, stride, lhs, lhs + 2 * step);
        slots_increase(begin, stride, lhs, n - 1);
        round_frame(src, next, begin, stride, n, step, lhs + 2 * step, comb);
    }
}

pub proof fn slots_increase(begin: int, stride: int, lo: int, hi: int)
    by (nonlinear_arith)
    requires
        0 <= begin,
        0 < stride,
        0 <= lo <= hi,
    ensures
        0 <= begin + lo * stride <= begin + hi * stride,
        lo < hi ==> begin + lo * stride < begin + hi * stride,
{
}

/// A round writes the paired list at every second position `t`.
pub proof fn round_slot<S: Score, C: Combiner<S>>(
    src: Seq<Seq<(i64, S)>>,
    dst: Seq<Seq<(i64, S)>>,
    begin: int,
    stride: int,
    n: int,
    step: int,
    lhs: int,
    t: int,
    k: nat,
    comb: spec_fn(int, int) -> C,
)
    requires
        0 <= begin,
        0 < stride,
        0 <= lhs,
        0 < step,
        t == lhs + k * (2 * step),
        t < n,
        begin + (n - 1) * stride < dst.len(),
    ensures
        reduce_round(src, dst, begin, stride, n, step, lhs, comb)[begin + t * stride] == paired(
            src,
            begin,
            stride,
            n,
            step,
            t,
            comb,
        ),
    decreases k,
{
    let slot = begin + lhs * stride;
    let next = dst.update(slot, paired(src, begin, stride, n, step, lhs, comb));
    assert(k * (2 * step) >= 0) by (nonlinear_arith)
        requires
            step > 0,
    ;
    slots_increase(begin, stride, lhs, n - 1);
    if k == 0 {
        assert(k * (2 * step) == 0) by (nonlinear_arith)
            requires
                k == 0,
        ;
        slots_increase(begin, stride, lhs, lhs + 2 * step);
        round_frame(src, next, begin, stride, n, step, lhs + 2 * step, comb);
    } else {
        assert(k * (2 * step) == 2 * step + (k - 1) * (2 * step)) by (nonlinear_arith);
        round_slot(src, next, begin, stride, n, step, lhs + 2 * step, t, (k - 1) as nat, comb);
    }
}

/// A round keeps the bound, for twice the distance.
pub proof fn round_bounded<S: Score, C: Combiner<S>>(
    src: Seq<Seq<(i64, S)>>,
    dst: Seq<Seq<(i64, S)>>,
    lists: Seq<Seq<(i64, S)>>,
    begin: int,
    stride: int,
    n: int,
    step: int,
    comb: spec_fn(int, int) -> C,
)
    requires
        0 <= begin,
        0 < stride,
        0 < step,
        begin + (n - 1) * stride < dst.len(),
        bounded(src, lists, begin, stride, n, step),
    ensures
        bounded(
            reduce_round(src, dst, begin, stride, n, step, 0, comb),
            lists,
            begin,
            stride,
            n,
            2 * step,
        ),
{
    let out = reduce_round(src, dst, begin, stride, n, step, 0, comb);
    assert forall|m: int|
        #![trigger out[begin + (m * (2 * step)) * stride]]
        0 <= m && m * (2 * step) < n implies out[begin + (m * (2 * step)) * stride].len() <= span(
        lists,
        begin,
        stride,
        m * (2 * step),
        if m * (2 * step) + 2 * step < n {
            m * (2 * step) + 2 * step
        } else {
            n
        },
    ) by {
        let lhs = m * (2 * step);
        let top = if lhs + 2 * step < n {
            lhs + 2 * step
        } else {
            n
        };
        round_slot(src, dst, begin, stride, n, step, 0, lhs, m as nat, comb);
        assert(lhs == (2 * m) * step && lhs + step == (2 * m + 1) * step) by (nonlinear_arith)
            requires
                lhs == m * (2 * step),
        ;
        assert(src[begin + ((2 * m) * step) * stride] == src[begin + lhs * stride]);
        if lhs + step < n {
            assert(src[begin + ((2 * m + 1) * step) * stride] == src[begin + (lhs + step)
                * stride]);
            combiner::merged_length(
                src[begin + lhs * stride],
                src[begin + (lhs + step) * stride],
                comb(lhs, step),
            );
            span_splits(lists, begin, stride, lhs, lhs + step, top);
        }
    }
}

/// The lists at positions `lhs` up to `lhs + step`, `step` being a power of two,
/// merged as a balanced tree: the two halves first, then the two results. A half
/// that lies beyond the last of the `n` lists is left out.
pub open spec fn tree<S: Score, C: Combiner<S>>(
    lists: Seq<Seq<(i64, S)>>,
    begin: int,
    stride: int,
    n: int,
    lhs: int,
    step: int,
    comb: spec_fn(int, int) -> C,
) -> Seq<(i64, S)>
    decreases step,
{
    if step <= 1 {
        lists[begin + lhs * stride]
    } else {
        let half = step / 2;
        if lhs + half < n {
            combiner::merged(
                tree(lists, begin, stride, n, lhs, half, comb),
                tree(lists, begin, stride, n, lhs + half, half, comb),
                comb(lhs, half),
            )
        } else {
            tree(lists, begin, stride, n, lhs, half, comb)
        }
    }
}

/// The first of `step`, twice `step`, four times `step`, .. that is at least `n`.
pub open spec fn top_step(n: int, step: int) -> int
    decreases gap(n, step),
{
    if step >= n || step <= 0 {
        step
    } else {
        top_step(n, 2 * step)
    }
}

/// All `n` lists merged as a balanced tree.
pub open spec fn full_tree<S: Score, C: Combiner<S>>(
    lists: Seq<Seq<(i64, S)>>,
    begin: int,
    stride: int,
    n: int,
    comb: spec_fn(int, int) -> C,
) -> Seq<(i64, S)> {
    tree(lists, begin, stride, n, 0, top_step(n, 1), comb)
}

/// Every list at a multiple of `step` is the tree of the original lists from there on.
spec fn holds_trees<S: Score, C: Combiner<S>>(
    cur: Seq<Seq<(i64, S)>>,
    lists: Seq<Seq<(i64, S)>>,
    begin: int,
    stride: int,
    n: int,
    step: int,
    comb: spec_fn(int, int) -> C,
) -> bool {
    forall|m: int|
        #![trigger cur[begin + (m * step) * stride]]
        0 <= m && m * step < n ==> cur[begin + (m * step) * stride] == tree(
            lists,
            begin,
            stride,
            n,
            m * step,
            step,
            comb,
        )
}

proof fn round_holds_trees<S: Score, C: Combiner<S>>(
    src: Seq<Seq<(i64, S)>>,
    dst: Seq<Seq<(i64, S)>>,
    lists: Seq<Seq<(i64, S)>>,
    begin: int,
    stride: int,
    n: int,
    step: int,
    comb: spec_fn(int, int) -> C,
)
    requires
        0 <= begin,
        0 < stride,
        0 < step,
        begin + (n - 1) * stride < dst.len(),
        holds_trees(src, lists, begin, stride, n, step, comb),
    ensures
        holds_trees(
            reduce_round(src, dst, begin, stride, n, step, 0, comb),
            lists,
            begin,
            stride,
            n,
            2 * step,
            comb,
        ),
{
    let out = reduce_round(src, dst, begin, stride, n, step, 0, comb);
    assert forall|m: int|
        #![trigger out[begin + (m * (2 * step)) * stride]]
        0 <= m && m * (2 * step) < n implies out[begin + (m * (2 * step)) * stride] == tree(
        lists,
        begin,
        stride,
        n,
        m * (2 * step),
        2 * step,
        comb,
    ) by {
        let lhs = m * (2 * step);
        round_slot(src, dst, begin, stride, n, step, 0, lhs, m as nat, comb);
        assert(lhs == (2 * m) * step && lhs + step == (2 * m + 1) * step) by (nonlinear_arith)
            requires
                lhs == m * (2 * step),
        ;
        assert(src[begin + ((2 * m) * step) * stride] == src[begin + lhs * stride]);
        if lhs + step < n {
            assert(src[begin + ((2 * m + 1) * step) * stride] == src[begin + (lhs + step)
                * stride]);
        }
        assert((2 * step) / 2 == step);
    }
}

proof fn rounds_give_tree_from<S: Score, C: Combiner<S>>(
    cur: Seq<Seq<(i64, S)>>,
    other: Seq<Seq<(i64, S)>>,
    lists: Seq<Seq<(i64, S)>>,
    begin: int,
    stride: int,
    n: int,
    step: int,
    comb: spec_fn(int, int) -> C,
)
    requires
        0 <= begin,
        0 < stride,
        0 < step,
        0 < n,
        begin + (n - 1) * stride < cur.len(),
        begin + (n - 1) * stride < other.len(),
        holds_trees(cur, lists, begin, stride, n, step, comb),
    ensures
        reduce_rounds(cur, other, begin, stride, n, step, comb).0[begin] == tree(
            lists,
            begin,
            stride,
            n,
            0,
            top_step(n, step),
            comb,
        ),
    decreases gap(n, step),
{
    if step >= n {
        assert(0 * step == 0 && 0 * stride == 0);
        assert(cur[begin + (0 * step) * stride] == cur[begin]);
    } else {
        let next = reduce_round(cur, other, begin, stride, n, step, 0, comb);
        round_frame(cur, other, begin, stride, n, step, 0, comb);
        round_holds_trees(cur, other, lists, begin, stride, n, step, comb);
        rounds_give_tree_from(next, cur, lists, begin, stride, n, 2 * step, comb);
    }
}

/// The rounds leave the balanced tree of all lists in the first slot.
pub proof fn rounds_give_tree<S: Score, C: Combiner<S>>(
    lists: Seq<Seq<(i64, S)>>,
    other: Seq<Seq<(i64, S)>>,
    begin: int,
    stride: int,
    n: int,
    comb: spec_fn(int, int) -> C,
)
    requires
        0 <= begin,
        0 < stride,
        0 < n,
        begin + (n - 1) * stride < lists.len(),
        begin + (n - 1) * stride < other.len(),
    ensures
        reduce_rounds(lists, other, begin, stride, n, 1, comb).0[begin] == full_tree(
            lists,
            begin,
            stride,
            n,
            comb,
        ),
{
    assert(holds_trees(lists, lists, begin, stride, n, 1, comb));
    rounds_give_tree_from(lists, other, lists, begin, stride, n, 1, comb);
}

/// The two buffers agree on every slot but those from `lo` to `hi`.
pub open spec fn same_outside<S>(
    a: Seq<Seq<(i64, S)>>,
    b: Seq<Seq<(i64, S)>>,
    lo: int,
    hi: int,
) -> bool {
    &&& a.len() == b.len()
    &&& forall|i: int|
        #![trigger a[i]]
        #![trigger b[i]]
        0 <= i < a.len() && (i < lo || hi < i) ==> a[i] == b[i]
}

proof fn round_outside<S: Score, C: Combiner<S>>(
    src: Seq<Seq<(i64, S)>>,
    dst: Seq<Seq<(i64, S)>>,
    begin: int,
    stride: int,
    n: int,
    step: int,
    lhs: int,
    comb: spec_fn(int, int) -> C,
)
    requires
        0 <= begin,
        0 < stride,
        0 <= lhs,
        begin + (n - 1) * stride < dst.len(),
    ensures
        same_outside(
            dst,
            reduce_round(src, dst, begin, stride, n, step, lhs, comb),
            begin,
            begin + (n - 1) * stride,
        ),
    decreases gap(n, lhs),
{
    if lhs >= n || step <= 0 {
    } else {
        let slot = begin + lhs * stride;
        let next = dst.update(slot, paired(src, begin, stride, n, step, lhs, comb));
        slots_increase(begin, stride, 0, lhs);
        slots_increase(begin, stride, lhs, n - 1);
        assert(same_outside(dst, next, begin, begin + (n - 1) * stride));
        round_outside(src, next, begin, stride, n, step, lhs + 2 * step, comb);
    }
}

/// The buffers after the rounds, in the order in which they were given.
pub open spec fn settled<S: Score, C: Combiner<S>>(
    cur: Seq<Seq<(i64, S)>>,
    other: Seq<Seq<(i64, S)>>,
    begin: int,
    stride: int,
    n: int,
    step: int,
    comb: spec_fn(int, int) -> C,
) -> (Seq<Seq<(i64, S)>>, Seq<Seq<(i64, S)>>) {
    let after = reduce_rounds(cur, other, begin, stride, n, step, comb);
    if num_rounds(n, step) % 2 == 0 {
        after
    } else {
        (after.1, after.0)
    }
}

/// The room that slots have been given once all rounds are through, first in the
/// buffer that the first round read.
pub open spec fn settled_rooms<S: Score, C: Combiner<S>>(
    cur: Seq<Seq<(i64, S)>>,
    other: Seq<Seq<(i64, S)>>,
    begin: int,
    stride: int,
    n: int,
    step: int,
    comb: spec_fn(int, int) -> C,
) -> (Seq<nat>, Seq<nat>) {
    let after = rounds_rooms(
        cur,
        other,
        no_rooms(cur.len()),
        no_rooms(other.len()),
        begin,
        stride,
        n,
        step,
        comb,
    );
    if num_rounds(n, step) % 2 == 0 {
        after
    } else {
        (after.1, after.0)
    }
}

/// A round adds to the room of a slot whatever room it has.
pub proof fn rooms_add<S>(
    src: Seq<Seq<(i64, S)>>,
    base: Seq<nat>,
    rooms: Seq<nat>,
    own: Seq<nat>,
    begin: int,
    stride: int,
    n: int,
    step: int,
    lhs: int,
)
    requires
        rooms.len() == base.len(),
        own.len() == base.len(),
        forall|i: int| 0 <= i < base.len() ==> #[trigger] rooms[i] == longer(base[i], own[i]),
        0 <= begin,
        0 < stride,
        0 <= lhs,
        begin + (n - 1) * stride < base.len(),
    ensures
        round_rooms(src, rooms, begin, stride, n, step, lhs).len() == base.len(),
        round_rooms(src, own, begin, stride, n, step, lhs).len() == base.len(),
        forall|i: int|
            0 <= i < base.len() ==> #[trigger] round_rooms(src, rooms, begin, stride, n, step, lhs)[i]
                == longer(base[i], round_rooms(src, own, begin, stride, n, step, lhs)[i]),
    decreases gap(n, lhs),
{
    if lhs >= n || step <= 0 {
    } else {
        let slot = begin + lhs * stride;
        let room = paired_room(src, begin, stride, n, step, lhs);
        slots_increase(begin, stride, lhs, n - 1);
        rooms_add(
            src,
            base,
            rooms.update(slot, longer(rooms[slot], room)),
            own.update(slot, longer(own[slot], room)),
            begin,
            stride,
            n,
            step,
            lhs + 2 * step,
        );
    }
}

/// The lists at multiples of `step` are no longer in `small` than in `big`.
pub open spec fn outgrown<S>(
    small: Seq<Seq<(i64, S)>>,
    big: Seq<Seq<(i64, S)>>,
    begin: int,
    stride: int,
    n: int,
    step: int,
    first: int,
) -> bool {
    forall|m: int|
        #![trigger small[begin + (m * step) * stride]]
        first <= m && m * step < n ==> small[begin + (m * step) * stride].len() <= big[begin + (m
            * step) * stride].len()
}

/// A round that reads longer lists than it writes over makes no list shorter.
pub proof fn round_extends<S: Score, C: Combiner<S>>(
    src: Seq<Seq<(i64, S)>>,
    dst: Seq<Seq<(i64, S)>>,
    begin: int,
    stride: int,
    n: int,
    step: int,
    j: int,
    comb: spec_fn(int, int) -> C,
)
    requires
        0 <= begin,
        0 < stride,
        0 < step,
        0 <= j,
        begin + (n - 1) * stride < dst.len(),
        outgrown(dst, src, begin, stride, n, step, 2 * j),
    ensures
        reduce_round(src, dst, begin, stride, n, step, (2 * j) * step, comb).len() == dst.len(),
        forall|i: int|
            0 <= i < dst.len() ==> dst[i].len() <= #[trigger] reduce_round(
                src,
                dst,
                begin,
                stride,
                n,
                step,
                (2 * j) * step,
                comb,
            )[i].len(),
    decreases gap(n, (2 * j) * step),
{
    let lhs = (2 * j) * step;
    assert(0 <= lhs) by (nonlinear_arith)
        requires
            lhs == (2 * j) * step,
            0 <= j,
            0 < step,
    ;
    if lhs < n {
        let slot = begin + lhs * stride;
        let value = paired(src, begin, stride, n, step, lhs, comb);
        let next = dst.update(slot, value);
        slots_increase(begin, stride, lhs, n - 1);
        assert((2 * (j + 1)) * step == lhs + 2 * step) by (nonlinear_arith)
            requires
                lhs == (2 * j) * step,
        ;
        if lhs + step < n {
            combiner::merged_length(
                src[begin + lhs * stride],
                src[begin + (lhs + step) * stride],
                comb(lhs, step),
            );
        }
        assert(dst[begin + ((2 * j) * step) * stride].len() <= src[slot].len());
        assert(dst[slot].len() <= value.len());
        assert forall|m: int|
            #![trigger next[begin + (m * step) * stride]]
            2 * (j + 1) <= m && m * step < n implies next[begin + (m * step) * stride].len()
            <= src[begin + (m * step) * stride].len() by {
            assert(lhs < m * step) by (nonlinear_arith)
                requires
                    lhs == (2 * j) * step,
                    2 * (j + 1) <= m,
                    0 < step,
            ;
            slots_increase(begin, stride, lhs, m * step);
            slots_increase(begin, stride, m * step, n - 1);
            assert(next[begin + (m * step) * stride] == dst[begin + (m * step) * stride]);
        }
        round_extends(src, next, begin, stride, n, step, j + 1, comb);
        let out = reduce_round(src, dst, begin, stride, n, step, lhs, comb);
        assert(out == reduce_round(src, next, begin, stride, n, step, lhs + 2 * step, comb));
        assert forall|i: int| 0 <= i < dst.len() implies dst[i].len() <= #[trigger] out[i].len() by {
            assert(next[i].len() <= out[i].len());
        }
    }
}

/// What a round writes is no shorter than what it read.
pub proof fn round_outgrows<S: Score, C: Combiner<S>>(
    src: Seq<Seq<(i64, S)>>,
    dst: Seq<Seq<(i64, S)>>,
    begin: int,
    stride: int,
    n: int,
    step: int,
    comb: spec_fn(int, int) -> C,
)
    requires
        0 <= begin,
        0 < stride,
        0 < step,
        begin + (n - 1) * stride < dst.len(),
    ensures
        outgrown(
            src,
            reduce_round(src, dst, begin, stride, n, step, 0, comb),
            begin,
            stride,
            n,
            2 * step,
            0,
        ),
{
    let out = reduce_round(src, dst, begin, stride, n, step, 0, comb);
    assert forall|m: int|
        #![trigger src[begin + (m * (2 * step)) * stride]]
        0 <= m && m * (2 * step) < n implies src[begin + (m * (2 * step)) * stride].len() <= out[begin
        + (m * (2 * step)) * stride].len() by {
        let lhs = m * (2 * step);
        round_slot(src, dst, begin, stride, n, step, 0, lhs, m as nat, comb);
        if lhs + step < n {
            combiner::merged_length(
                src[begin + lhs * stride],
                src[begin + (lhs + step) * stride],
                comb(lhs, step),
            );
        }
    }
}

/// The rounds leave every slot outside the lists' own as it was, in both buffers.
pub proof fn rounds_outside<S: Score, C: Combiner<S>>(
    cur: Seq<Seq<(i64, S)>>,
    other: Seq<Seq<(i64, S)>>,
    begin: int,
    stride: int,
    n: int,
    step: int,
    comb: spec_fn(int, int) -> C,
)
    requires
        0 <= begin,
        0 < stride,
        begin + (n - 1) * stride < cur.len(),
        begin + (n - 1) * stride < other.len(),
    ensures
        same_outside(
            cur,
            settled(cur, other, begin, stride, n, step, comb).0,
            begin,
            begin + (n - 1) * stride,
        ),
        same_outside(
            other,
            settled(cur, other, begin, stride, n, step, comb).1,
            begin,
            begin + (n - 1) * stride,
        ),
    decreases gap(n, step),
{
    if step >= n || step <= 0 {
    } else {
        let next = reduce_round(cur, other, begin, stride, n, step, 0, comb);
        round_outside(cur, other, begin, stride, n, step, 0, comb);
        rounds_outside(next, cur, begin, stride, n, 2 * step, comb);
        let inner = settled(next, cur, begin, stride, n, 2 * step, comb);
        let outer = settled(cur, other, begin, stride, n, step, comb);
        assert(outer == (inner.1, inner.0));
    }
}

/// A tree depends only on the lists at its positions.
pub proof fn tree_same<S: Score, C: Combiner<S>>(
    a: Seq<Seq<(i64, S)>>,
    begin_a: int,
    stride_a: int,
    b: Seq<Seq<(i64, S)>>,
    begin_b: int,
    stride_b: int,
    n: int,
    lhs: int,
    step: int,
    comb: spec_fn(int, int) -> C,
)
    requires
        0 <= lhs < n,
        forall|l: int|
            #![trigger a[begin_a + l * stride_a]]
            0 <= l < n ==> a[begin_a + l * stride_a] == b[begin_b + l * stride_b],
    ensures
        tree(a, begin_a, stride_a, n, lhs, step, comb) == tree(
            b,
            begin_b,
            stride_b,
            n,
            lhs,
            step,
            comb,
        ),
    decreases step,
{
    if step <= 1 {
        assert(a[begin_a + lhs * stride_a] == b[begin_b + lhs * stride_b]);
    } else {
        let half = step / 2;
        tree_same(a, begin_a, stride_a, b, begin_b, stride_b, n, lhs, half, comb);
        if lhs + half < n {
            tree_same(a, begin_a, stride_a, b, begin_b, stride_b, n, lhs + half, half, comb);
        }
    }
}

/// A width that halves evenly down to one.
pub open spec fn is_power(step: int) -> bool
    decreases step,
{
    step == 1 || (step > 1 && step % 2 == 0 && is_power(step / 2))
}

pub proof fn top_step_is_power(n: int, step: int)
    requires
        is_power(step),
    ensures
        is_power(top_step(n, step)),
        top_step(n, step) >= n,
        top_step(n, step) >= step,
    decreases gap(n, step),
{
    if step >= n || step <= 0 {
    } else {
        assert((2 * step) / 2 == step);
        top_step_is_power(n, 2 * step);
    }
}

/// A tree over the positions from `lhs` up to `lhs + step` holds no more
/// candidates than the lists there.
pub proof fn tree_length<S: Score, C: Combiner<S>>(
    lists: Seq<Seq<(i64, S)>>,
    begin: int,
    stride: int,
    n: int,
    lhs: int,
    step: int,
    comb: spec_fn(int, int) -> C,
)
    requires
        0 <= lhs < n,
        is_power(step),
    ensures
        tree(lists, begin, stride, n, lhs, step, comb).len() <= span(
            lists,
            begin,
            stride,
            lhs,
            if lhs + step < n {
                lhs + step
            } else {
                n
            },
        ),
    decreases step,
{
    if step <= 1 {
        reveal_with_fuel(span, 2);
    } else {
        let half = step / 2;
        tree_length(lists, begin, stride, n, lhs, half, comb);
        if lhs + half < n {
            tree_length(lists, begin, stride, n, lhs + half, half, comb);
            combiner::merged_length(
                tree(lists, begin, stride, n, lhs, half, comb),
                tree(lists, begin, stride, n, lhs + half, half, comb),
                comb(lhs, half),
            );
            span_splits(
                lists,
                begin,
                stride,
                lhs,
                lhs + half,
                if lhs + step < n {
                    lhs + step
                } else {
                    n
                },
            );
        }
    }
}

/// The number of candidates depends only on the lists at the counted positions.
pub proof fn span_same<S>(
    a: Seq<Seq<(i64, S)>>,
    begin_a: int,
    b: Seq<Seq<(i64, S)>>,
    begin_b: int,
    stride: int,
    lo: int,
    hi: int,
)
    requires
        forall|l: int|
            #![trigger a[begin_a + l * stride]]
            lo <= l < hi ==> a[begin_a + l * stride].len() == b[begin_b + l * stride].len(),
    ensures
        span(a, begin_a, stride, lo, hi) == span(b, begin_b, stride, lo, hi),
    decreases hi - lo,
{
    if lo < hi {
        span_same(a, begin_a, b, begin_b, stride, lo, hi - 1);
        assert(a[begin_a + (hi - 1) * stride].len() == b[begin_b + (hi - 1) * stride].len());
    }
}

} // verus!
