//! Combination of two candidate lists into one.

use crate::score::Score;
use vstd::prelude::*;

verus! {

/// How the scores of one passage in two lists become one.
pub trait Combiner<S: Score> {
    spec fn spec_combine(&self, lhs: S, rhs: S) -> S;

    spec fn spec_lhs(&self, lhs: S) -> S;

    spec fn spec_rhs(&self, rhs: S) -> S;

    /// The score of a passage that both lists hold.
    fn combine(&self, lhs: S, rhs: S) -> (r: S)
        ensures
            r == self.spec_combine(lhs, rhs),
    ;

    /// The score of a passage that only the left list holds.
    fn lhs(&self, lhs: S) -> (r: S)
        ensures
            r == self.spec_lhs(lhs),
    ;

    /// The score of a passage that only the right list holds.
    fn rhs(&self, rhs: S) -> (r: S)
        ensures
            r == self.spec_rhs(rhs),
    ;
}

/// Combiner for max-reduction of token-level scores from different clusters
#[derive(Clone, Copy)]
pub struct ReduceMaxCombiner;

impl<S: Score> Combiner<S> for ReduceMaxCombiner {
    open spec fn spec_combine(&self, lhs: S, rhs: S) -> S {
        lhs.spec_larger(rhs)
    }

    open spec fn spec_lhs(&self, lhs: S) -> S {
        lhs
    }

    open spec fn spec_rhs(&self, rhs: S) -> S {
        rhs
    }

    fn combine(&self, lhs: S, rhs: S) -> (r: S) {
        lhs.larger(rhs)
    }

    fn lhs(&self, lhs: S) -> (r: S) {
        lhs
    }

    fn rhs(&self, rhs: S) -> (r: S) {
        rhs
    }
}

/// Combiner for sum-reduction with MSE correction: a passage missing on one
/// side is credited that side's estimate.
pub struct ReduceSumMseCombiner<S> {
    pub lhs_mse: S,
    pub rhs_mse: S,
}

impl<S: Score> ReduceSumMseCombiner<S> {
    pub fn new(lhs_mse: S, rhs_mse: S) -> (r: Self)
        ensures
            r == (ReduceSumMseCombiner { lhs_mse, rhs_mse }),
    {
        ReduceSumMseCombiner { lhs_mse, rhs_mse }
    }
}

impl<S: Score> Combiner<S> for ReduceSumMseCombiner<S> {
    open spec fn spec_combine(&self, lhs: S, rhs: S) -> S {
        lhs.spec_plus(rhs)
    }

    open spec fn spec_lhs(&self, lhs: S) -> S {
        lhs.spec_plus(self.rhs_mse)
    }

    open spec fn spec_rhs(&self, rhs: S) -> S {
        self.lhs_mse.spec_plus(rhs)
    }

    fn combine(&self, lhs: S, rhs: S) -> (r: S) {
        lhs.plus(rhs)
    }

    fn lhs(&self, lhs: S) -> (r: S) {
        lhs.plus(self.rhs_mse)
    }

    fn rhs(&self, rhs: S) -> (r: S) {
        self.lhs_mse.plus(rhs)
    }
}

/// Two candidate lists merged in passage order: the smaller head goes first,
/// and heads that name the same passage become one entry.
pub open spec fn merged<S: Score, C: Combiner<S>>(
    a: Seq<(i64, S)>,
    b: Seq<(i64, S)>,
    c: C,
) -> Seq<(i64, S)>
    decreases a.len() + b.len(),
{
    if a.len() == 0 {
        b.map_values(|e: (i64, S)| (e.0, c.spec_rhs(e.1)))
    } else if b.len() == 0 {
        a.map_values(|e: (i64, S)| (e.0, c.spec_lhs(e.1)))
    } else if a[0].0 == b[0].0 {
        seq![(a[0].0, c.spec_combine(a[0].1, b[0].1))] + merged(a.drop_first(), b.drop_first(), c)
    } else if a[0].0 < b[0].0 {
        seq![(a[0].0, c.spec_lhs(a[0].1))] + merged(a.drop_first(), b, c)
    } else {
        seq![(b[0].0, c.spec_rhs(b[0].1))] + merged(a, b.drop_first(), c)
    }
}

/// A merge holds no more entries than its two sides together.
pub proof fn merged_length<S: Score, C: Combiner<S>>(a: Seq<(i64, S)>, b: Seq<(i64, S)>, c: C)
    ensures
        merged(a, b, c).len() <= a.len() + b.len(),
        a.len() <= merged(a, b, c).len(),
        b.len() <= merged(a, b, c).len(),
    decreases a.len() + b.len(),
{
    if a.len() == 0 || b.len() == 0 {
    } else if a[0].0 == b[0].0 {
        merged_length(a.drop_first(), b.drop_first(), c);
    } else if a[0].0 < b[0].0 {
        merged_length(a.drop_first(), b, c);
    } else {
        merged_length(a, b.drop_first(), c);
    }
}

} // verus!
