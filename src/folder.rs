//! The two-part reduction used to summarise subtrees.
use vstd::prelude::*;

verus! {

/// Reduces leaves to summaries (`gather`) and the summaries of the non-empty children of a node
/// to one (`fold`).
pub trait Folder<T, M> {
    /// The summary of a subtree.
    type Sum;

    /// What `gather` returns.
    spec fn spec_gather(&self, morton: M, item: T) -> Self::Sum;

    /// What `fold` returns.
    spec fn spec_fold(&self, sums: Seq<Self::Sum>) -> Self::Sum;

    /// Reduces one leaf.
    fn gather(&self, morton: M, item: &T) -> (r: Self::Sum)
        ensures
            r == self.spec_gather(morton, *item),
    ;

    /// A copy of a summary, equal to it: summaries are both stored and passed on.
    fn copy_sum(&self, s: &Self::Sum) -> (r: Self::Sum)
        ensures
            r == *s,
    ;

    /// Reduces the summaries of 1 to 8 children, given in child-index order.
    fn fold(&self, sums: &[Self::Sum]) -> (r: Self::Sum)
        requires
            1 <= sums@.len() <= 8,
        ensures
            r == self.spec_fold(sums@),
    ;
}

/// The sum of a sequence of counts.
pub open spec fn seq_sum(s: Seq<usize>) -> nat
    decreases s.len(),
{
    if s.len() == 0 {
        0
    } else {
        seq_sum(s.drop_last()) + s.last() as nat
    }
}

/// Counts the leaves of each subtree: a leaf is 1, a node the sum of its children, saturating
/// at `usize::MAX`.
pub struct CountFolder;

impl<T, M> Folder<T, M> for CountFolder {
    type Sum = usize;

    open spec fn spec_gather(&self, morton: M, item: T) -> usize {
        1
    }

    open spec fn spec_fold(&self, sums: Seq<usize>) -> usize {
        if seq_sum(sums) <= usize::MAX {
            seq_sum(sums) as usize
        } else {
            usize::MAX
        }
    }

    fn gather(&self, morton: M, item: &T) -> (r: usize) {
        1
    }

    fn copy_sum(&self, s: &usize) -> (r: usize) {
        *s
    }

    fn fold(&self, sums: &[usize]) -> (r: usize) {
        let mut total: usize = 0;
        let mut i: usize = 0;
        let mut saturated = false;
        while i < sums.len()
            invariant
                i <= sums@.len(),
                saturated ==> seq_sum(sums@.subrange(0, i as int)) > usize::MAX,
                !saturated ==> total == seq_sum(sums@.subrange(0, i as int)),
            decreases sums@.len() - i,
        {
            let x = sums[i];
            assert(sums@.subrange(0, i + 1).drop_last() =~= sums@.subrange(0, i as int));
            if saturated || total > usize::MAX - x {
                saturated = true;
            } else {
                total = total + x;
            }
            i = i + 1;
        }
        assert(sums@.subrange(0, sums@.len() as int) =~= sums@);
        if saturated {
            usize::MAX
        } else {
            total
        }
    }
}

} // verus!
