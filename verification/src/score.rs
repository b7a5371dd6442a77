//! The arithmetic that ranking performs on scores.
//!
//! The merge never looks inside a score: it takes the larger of two, adds and
//! subtracts them, and asks which of two ranks higher. [`Score`] names these
//! operations, so that every result of the merge is stated exactly in terms of
//! them, whichever number type stands behind it.

use vstd::prelude::*;

verus! {

/// A number that passages can be ranked by.
///
/// Each operation is a function of its operands: the specification functions
/// name the results, and the contracts of the merge are stated over them.
pub trait Score: Copy {
    /// The score of nothing.
    spec fn spec_zero() -> Self;

    /// The larger of two scores.
    spec fn spec_larger(self, other: Self) -> Self;

    /// The sum of two scores.
    spec fn spec_plus(self, other: Self) -> Self;

    /// The difference of two scores.
    spec fn spec_minus(self, other: Self) -> Self;

    /// Whether a passage with this score ranks strictly before one with `other`.
    spec fn spec_exceeds(self, other: Self) -> bool;

    fn zero() -> (r: Self)
        ensures
            r == Self::spec_zero(),
    ;

    fn larger(self, other: Self) -> (r: Self)
        ensures
            r == self.spec_larger(other),
    ;

    fn plus(self, other: Self) -> (r: Self)
        ensures
            r == self.spec_plus(other),
    ;

    fn minus(self, other: Self) -> (r: Self)
        ensures
            r == self.spec_minus(other),
    ;

    fn exceeds(self, other: Self) -> (r: bool)
        ensures
            r == self.spec_exceeds(other),
    ;
}

/// The sum does not depend on order or grouping, and a difference undoes a sum.
#[verifier::opaque]
pub open spec fn exact_sums<S: Score>() -> bool {
    &&& forall|a: S, b: S| #[trigger] a.spec_plus(b) == b.spec_plus(a)
    &&& forall|a: S, b: S, c: S|
        #[trigger] a.spec_plus(b).spec_plus(c) == a.spec_plus(b.spec_plus(c))
    &&& forall|a: S| #[trigger] a.spec_plus(S::spec_zero()) == a
    &&& forall|a: S, b: S| #[trigger] a.spec_minus(b).spec_plus(b) == a
    &&& forall|a: S, b: S| #[trigger] a.spec_plus(b).spec_minus(b) == a
}

/// The larger of several scores does not depend on order, grouping or repetition.
#[verifier::opaque]
pub open spec fn exact_larger<S: Score>() -> bool {
    &&& forall|a: S, b: S| #[trigger] a.spec_larger(b) == b.spec_larger(a)
    &&& forall|a: S, b: S, c: S|
        #[trigger] a.spec_larger(b).spec_larger(c) == a.spec_larger(b.spec_larger(c))
    &&& forall|a: S| #[trigger] a.spec_larger(a) == a
}

/// The scores can be ranked: ranking before is irreflexive and transitive, and
/// so is ranking level.
pub open spec fn rankable<S: Score>(scores: Seq<S>) -> bool {
    &&& forall|i: int| 0 <= i < scores.len() ==> !(#[trigger] scores[i]).spec_exceeds(scores[i])
    &&& forall|i: int, j: int, k: int|
        #![trigger scores[i].spec_exceeds(scores[j]), scores[j].spec_exceeds(scores[k])]
        0 <= i < scores.len() && 0 <= j < scores.len() && 0 <= k < scores.len()
            && scores[i].spec_exceeds(scores[j]) && scores[j].spec_exceeds(scores[k])
            ==> scores[i].spec_exceeds(scores[k])
    &&& forall|i: int, j: int, k: int|
        #![trigger scores[i].spec_exceeds(scores[k]), scores[i].spec_exceeds(scores[j])]
        0 <= i < scores.len() && 0 <= j < scores.len() && 0 <= k < scores.len()
            && scores[i].spec_exceeds(scores[k]) ==> scores[i].spec_exceeds(scores[j])
            || scores[j].spec_exceeds(scores[k])
}

/// Whole-number scores: sums and differences are taken modulo 2^64.
impl Score for i64 {
    open spec fn spec_zero() -> i64 {
        0
    }

    open spec fn spec_larger(self, other: i64) -> i64 {
        if self < other {
            other
        } else {
            self
        }
    }

    open spec fn spec_plus(self, other: i64) -> i64 {
        self.wrapping_add(other)
    }

    open spec fn spec_minus(self, other: i64) -> i64 {
        self.wrapping_sub(other)
    }

    open spec fn spec_exceeds(self, other: i64) -> bool {
        self > other
    }

    fn zero() -> (r: i64) {
        0
    }

    fn larger(self, other: i64) -> (r: i64) {
        if self < other {
            other
        } else {
            self
        }
    }

    fn plus(self, other: i64) -> (r: i64) {
        self.wrapping_add(other)
    }

    fn minus(self, other: i64) -> (r: i64) {
        self.wrapping_sub(other)
    }

    fn exceeds(self, other: i64) -> (r: bool) {
        self > other
    }
}

/// Sums can be regrouped.
pub proof fn plus_regroups<S: Score>(a: S, b: S, c: S)
    requires
        exact_sums::<S>(),
    ensures
        a.spec_plus(b).spec_plus(c) == a.spec_plus(b.spec_plus(c)),
{
    reveal(exact_sums);
}

/// The terms of a sum can be exchanged.
pub proof fn plus_exchanges<S: Score>(a: S, b: S)
    requires
        exact_sums::<S>(),
    ensures
        a.spec_plus(b) == b.spec_plus(a),
{
    reveal(exact_sums);
}

/// Zero adds nothing, and a difference and a sum undo each other.
pub proof fn plus_undone<S: Score>(a: S, b: S)
    requires
        exact_sums::<S>(),
    ensures
        a.spec_plus(S::spec_zero()) == a,
        S::spec_zero().spec_plus(a) == a,
        a.spec_minus(b).spec_plus(b) == a,
        a.spec_plus(b).spec_minus(b) == a,
{
    reveal(exact_sums);
}

/// The larger of three does not depend on the grouping, nor that of two on the order.
pub proof fn larger_regroups<S: Score>(a: S, b: S, c: S)
    requires
        exact_larger::<S>(),
    ensures
        a.spec_larger(b).spec_larger(c) == a.spec_larger(b.spec_larger(c)),
        a.spec_larger(b) == b.spec_larger(a),
{
    reveal(exact_larger);
}

/// The larger of a score and itself is the score.
pub proof fn larger_repeats<S: Score>(a: S)
    requires
        exact_larger::<S>(),
    ensures
        a.spec_larger(a) == a,
{
    reveal(exact_larger);
}

/// Whole-number scores behave as numbers: the larger of two is one of them and no
/// smaller than either, the higher number ranks first, nothing scores zero, and where
/// sums and differences are in range they are those of the numbers.
pub proof fn whole_scores_are_numbers(a: i64, b: i64)
    ensures
        a.spec_larger(b) == a || a.spec_larger(b) == b,
        a.spec_larger(b) >= a,
        a.spec_larger(b) >= b,
        a.spec_exceeds(b) <==> a > b,
        i64::spec_zero() == 0,
        i64::MIN <= a + b <= i64::MAX ==> a.spec_plus(b) == a + b,
        i64::MIN <= a - b <= i64::MAX ==> a.spec_minus(b) == a - b,
{
}

/// Whole-number scores sum, compare and rank exactly.
pub proof fn whole_scores_are_exact(scores: Seq<i64>)
    ensures
        exact_sums::<i64>(),
        exact_larger::<i64>(),
        rankable(scores),
{
    reveal(exact_sums);
    reveal(exact_larger);
}

} // verus!
