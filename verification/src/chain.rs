//! The chain of revisions at which one key was written: a strictly ascending
//! list, searched by bisection.

use crate::ordered::lemma_filter_stretch;
use vstd::prelude::*;

verus! {

/// Each revision is below the next.
pub open spec fn ascending(revisions: Seq<i64>) -> bool {
    forall|i: int, j: int| 0 <= i < j < revisions.len() ==> revisions[i] < revisions[j]
}

/// The test that a revision is below `x`.
pub open spec fn is_below(x: int) -> spec_fn(i64) -> bool {
    |r: i64| r < x
}

/// The number of revisions in the chain that are below `x`.
pub open spec fn count_below(revisions: Seq<i64>, x: int) -> int {
    revisions.filter(is_below(x)).len() as int
}

/// The chain without the revisions that are below `floor`.
pub open spec fn pruned(revisions: Seq<i64>, floor: int) -> Seq<i64> {
    revisions.skip(count_below(revisions, floor))
}

/// Where the first `n` revisions are below `x` and the others are not, `n`
/// is the number of revisions below `x`.
pub proof fn lemma_count_below(revisions: Seq<i64>, x: int, n: int)
    requires
        0 <= n <= revisions.len(),
        forall|i: int| 0 <= i < n ==> revisions[i] < x,
        forall|i: int| n <= i < revisions.len() ==> revisions[i] >= x,
    ensures
        count_below(revisions, x) == n,
{
    lemma_filter_stretch(revisions, is_below(x), 0, n);
}

pub proof fn lemma_count_below_bounds(revisions: Seq<i64>, x: int)
    ensures
        0 <= count_below(revisions, x) <= revisions.len(),
{
    revisions.lemma_filter_len(is_below(x));
}

/// In an ascending chain the revisions below `x` are the first
/// `count_below` of them.
pub proof fn lemma_count_below_splits(revisions: Seq<i64>, x: int)
    requires
        ascending(revisions),
    ensures
        0 <= count_below(revisions, x) <= revisions.len(),
        forall|i: int| 0 <= i < count_below(revisions, x) ==> revisions[i] < x,
        forall|i: int| count_below(revisions, x) <= i < revisions.len() ==> revisions[i] >= x,
    decreases revisions.len(),
{
    reveal(Seq::filter);
    if revisions.len() > 0 {
        let front = revisions.drop_last();
        lemma_count_below_splits(front, x);
        let n = count_below(front, x);
        if revisions.last() < x {
            assert forall|i: int| 0 <= i < front.len() implies front[i] < x by {
                assert(revisions[i] < revisions[revisions.len() - 1]);
            }
            lemma_count_below(revisions, x, revisions.len() as int);
        } else {
            assert forall|i: int| 0 <= i < n implies revisions[i] < x by {
                assert(front[i] < x);
            }
            assert forall|i: int| n <= i < revisions.len() implies revisions[i] >= x by {
                if i < front.len() {
                    assert(front[i] >= x);
                }
            }
            lemma_count_below(revisions, x, n);
        }
    }
}

/// The number of revisions in the chain that are below `x`.
pub fn lower_bound(revisions: &Vec<i64>, x: i64) -> (n: usize)
    requires
        ascending(revisions@),
    ensures
        n == count_below(revisions@, x as int),
        n <= revisions.len(),
        forall|i: int| 0 <= i < n ==> revisions[i] < x,
        forall|i: int| n <= i < revisions.len() ==> revisions[i] >= x,
{
    let mut lo: usize = 0;
    let mut hi: usize = revisions.len();
    while lo < hi
        invariant
            ascending(revisions@),
            lo <= hi <= revisions.len(),
            forall|i: int| 0 <= i < lo ==> revisions[i] < x,
            forall|i: int| hi <= i < revisions.len() ==> revisions[i] >= x,
        decreases hi - lo,
    {
        let mid = lo + (hi - lo) / 2;
        if revisions[mid] < x {
            lo = mid + 1;
        } else {
            hi = mid;
        }
    }
    proof {
        lemma_count_below(revisions@, x as int, lo as int);
    }
    lo
}

} // verus!
