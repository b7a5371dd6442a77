//! Division of many items into batches.

use vstd::prelude::*;

verus! {

/// The batches of `batch_size` that `n` items are taken in, as start and length.
pub open spec fn batches(n: int, batch_size: int) -> Seq<(int, int)> {
    Seq::new(
        ((n + batch_size - 1) / batch_size) as nat,
        |i: int|
            (
                i * batch_size,
                if n - i * batch_size < batch_size {
                    n - i * batch_size
                } else {
                    batch_size
                },
            ),
    )
}

/// Every item is in exactly one batch: batch `q / batch_size`.
pub proof fn batches_cover(n: int, batch_size: int, q: int)
    requires
        0 < batch_size,
        0 <= q < n,
    ensures
        0 <= q / batch_size < batches(n, batch_size).len(),
        forall|i: int|
            0 <= i < batches(n, batch_size).len() ==> (({
                let b = #[trigger] batches(n, batch_size)[i];
                b.0 <= q < b.0 + b.1
            }) <==> i == q / batch_size),
{
    let c = q / batch_size;
    let count = (n + batch_size - 1) / batch_size;
    assert(c * batch_size <= q < c * batch_size + batch_size && 0 <= c) by (nonlinear_arith)
        requires
            c == q / batch_size,
            0 < batch_size,
            0 <= q,
    ;
    assert(c < count) by (nonlinear_arith)
        requires
            c * batch_size <= q,
            q < n,
            count == (n + batch_size - 1) / batch_size,
            0 < batch_size,
    ;
    assert forall|i: int| 0 <= i < batches(n, batch_size).len() implies (({
        let b = #[trigger] batches(n, batch_size)[i];
        b.0 <= q < b.0 + b.1
    }) <==> i == c) by {
        assert((i * batch_size <= q < i * batch_size + batch_size) <==> i == c)
            by (nonlinear_arith)
            requires
                c * batch_size <= q < c * batch_size + batch_size,
                0 < batch_size,
        ;
    }
}

/// `r` lists the batches.
pub open spec fn are_batches(r: Seq<(usize, usize)>, n: int, batch_size: int) -> bool {
    &&& r.len() == batches(n, batch_size).len()
    &&& forall|i: int|
        0 <= i < r.len() ==> (#[trigger] r[i].0 as int, r[i].1 as int) == batches(n, batch_size)[i]
}

/// A batch size of at least `n` gives one batch, or none where there are no items.
pub proof fn one_batch(n: int, batch_size: int)
    requires
        0 <= n <= batch_size,
        0 < batch_size,
    ensures
        n == 0 ==> batches(n, batch_size) == Seq::<(int, int)>::empty(),
        n > 0 ==> batches(n, batch_size) == seq![(0int, n)],
{
    let count = (n + batch_size - 1) / batch_size;
    if n == 0 {
        assert(count == 0) by (nonlinear_arith)
            requires
                count == (batch_size - 1) / batch_size,
                0 < batch_size,
        ;
        assert(batches(n, batch_size) =~= Seq::<(int, int)>::empty());
    } else {
        assert(count == 1) by (nonlinear_arith)
            requires
                count == (n + batch_size - 1) / batch_size,
                0 < n <= batch_size,
        ;
        assert(0 * batch_size == 0);
        assert(batches(n, batch_size) =~= seq![(0int, n)]);
    }
}

/// The batches of `batch_size` that `n` items are taken in, as start and length.
pub fn batch_ranges(n: usize, batch_size: usize) -> (r: Vec<(usize, usize)>)
    requires
        0 < batch_size,
    ensures
        are_batches(r@, n as int, batch_size as int),
{
    let mut r: Vec<(usize, usize)> = Vec::new();
    let mut start: usize = 0;
    let ghost size = batch_size as int;
    let ghost count = (n + size - 1) / size;
    proof {
        assert(0 <= count && (count - 1) * size < n <= count * size) by (nonlinear_arith)
            requires
                count == (n + size - 1) / size,
                0 < size,
                0 <= n,
        ;
        assert(0 * size == 0);
    }
    while start < n
        invariant
            0 < batch_size,
            size == batch_size,
            count == (n + size - 1) / size,
            0 <= count,
            (count - 1) * size < n <= count * size,
            start <= n,
            r@.len() <= count,
            start < n ==> start == r@.len() * size,
            start == n ==> r@.len() == count,
            forall|i: int|
                0 <= i < r@.len() ==> (#[trigger] r@[i].0 as int, r@[i].1 as int) == batches(
                    n as int,
                    size,
                )[i],
        decreases n - start,
    {
        let left: usize = n - start;
        let ghost i = r@.len() as int;
        assert(i < count) by (nonlinear_arith)
            requires
                i * size < n,
                n <= count * size,
                0 < size,
        ;
        assert((i + 1) * size == i * size + size) by (nonlinear_arith);
        if left <= batch_size {
            r.push((start, left));
            proof {
                assert(i + 1 == count) by (nonlinear_arith)
                    requires
                        n <= i * size + size,
                        (count - 1) * size < n,
                        i < count,
                        0 < size,
                ;
            }
            start = n;
        } else {
            r.push((start, batch_size));
            start = start + batch_size;
        }
    }
    r
}

} // verus!
