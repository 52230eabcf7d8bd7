//! How keys are partitioned into prefixes.
//!
//! Keys under `/registry/` are grouped by resource: the prefix runs through
//! the third slash, or through the fourth where the segment after
//! `/registry/` holds a dot (an API group).  A key with fewer slashes has
//! the prefix that ends at its last slash.  Every other key has the empty
//! prefix.

use crate::lex::{lex_order, Order};
use crate::ordered::{Bound, BoundView};
use crate::types::StoreError;
use vstd::prelude::*;
use vstd::slice::slice_subrange;

verus! {

pub const SLASH: u8 = 47;

pub const DOT: u8 = 46;

pub const ZERO: u8 = 48;

/// The bytes of `/registry/`.
pub open spec fn registry() -> Seq<u8> {
    seq![47u8, 114u8, 101u8, 103u8, 105u8, 115u8, 116u8, 114u8, 121u8, 47u8]
}

pub open spec fn is_registry_key(key: Seq<u8>) -> bool {
    key.len() >= 10 && key.take(10) == registry()
}

/// The segment that follows `/registry/` holds a dot.
pub open spec fn group_has_dot(key: Seq<u8>) -> bool {
    exists|i: int|
        10 <= i < key.len() && #[trigger] key[i] == DOT && forall|j: int|
            10 <= j < i ==> #[trigger] key[j] != SLASH
}

/// Scanning `key` from position `i`: the position just after the `want`-th
/// slash from there, or `last` where the key ends before that.
pub open spec fn cut(key: Seq<u8>, i: int, want: int, last: int) -> int
    decreases key.len() - i,
{
    if i >= key.len() || want <= 0 {
        last
    } else if key[i] == SLASH {
        cut(key, i + 1, want - 1, i + 1)
    } else {
        cut(key, i + 1, want, last)
    }
}

/// The length of the prefix of `key`.
pub open spec fn prefix_len(key: Seq<u8>) -> int {
    if !is_registry_key(key) {
        0
    } else if group_has_dot(key) {
        cut(key, 0, 4, 0)
    } else {
        cut(key, 0, 3, 0)
    }
}

/// The prefix of `key`.
pub open spec fn prefix_of(key: Seq<u8>) -> Seq<u8> {
    key.take(prefix_len(key))
}

/// What follows the prefix in `key`.
pub open spec fn suffix_of(key: Seq<u8>) -> Seq<u8> {
    key.skip(prefix_len(key))
}

pub proof fn lemma_cut_bounds(key: Seq<u8>, i: int, want: int, last: int)
    requires
        0 <= last <= i <= key.len(),
    ensures
        last <= cut(key, i, want, last) <= key.len(),
    decreases key.len() - i,
{
    if i >= key.len() || want <= 0 {
    } else if key[i] == SLASH {
        lemma_cut_bounds(key, i + 1, want - 1, i + 1);
    } else {
        lemma_cut_bounds(key, i + 1, want, last);
    }
}

/// A key is its prefix followed by its suffix.
pub proof fn lemma_split_joins(key: Seq<u8>)
    ensures
        0 <= prefix_len(key) <= key.len(),
        prefix_of(key) + suffix_of(key) == key,
{
    lemma_cut_bounds(key, 0, 4, 0);
    lemma_cut_bounds(key, 0, 3, 0);
    assert(prefix_of(key) + suffix_of(key) =~= key);
}

fn starts_with_registry(key: &[u8]) -> (r: bool)
    ensures
        r == is_registry_key(key@),
{
    if key.len() < 10 {
        return false;
    }
    let r = key[0] == 47 && key[1] == 114 && key[2] == 101 && key[3] == 103 && key[4] == 105
        && key[5] == 115 && key[6] == 116 && key[7] == 114 && key[8] == 121 && key[9] == 47;
    proof {
        if r {
            assert(key@.take(10) =~= registry());
        } else {
            let t = key@.take(10);
            assert(t[0] == key[0] && t[1] == key[1] && t[2] == key[2] && t[3] == key[3] && t[4]
                == key[4] && t[5] == key[5] && t[6] == key[6] && t[7] == key[7] && t[8] == key[8]
                && t[9] == key[9]);
        }
    }
    r
}

/// The length of the prefix of `key`.
pub fn split_point(key: &[u8]) -> (n: usize)
    ensures
        n == prefix_len(key@),
        n <= key.len(),
{
    if !starts_with_registry(key) {
        return 0;
    }
    let mut i: usize = 10;
    let mut dot = false;
    while i < key.len() && key[i] != SLASH
        invariant
            10 <= i <= key.len(),
            forall|j: int| 10 <= j < i ==> #[trigger] key[j] != SLASH,
            dot <==> exists|k: int| 10 <= k < i && #[trigger] key[k] == DOT,
        decreases key.len() - i,
    {
        if key[i] == DOT {
            dot = true;
        }
        i = i + 1;
    }
    proof {
        if dot {
            let k = choose|k: int| 10 <= k < i && #[trigger] key[k] == DOT;
            assert(key[k] == DOT);
        }
    }
    assert(dot == group_has_dot(key@));
    let want: usize = if dot {
        4
    } else {
        3
    };
    let mut pos: usize = 0;
    let mut left: usize = want;
    let mut last: usize = 0;
    while pos < key.len() && left > 0
        invariant
            last <= pos <= key.len(),
            cut(key@, pos as int, left as int, last as int) == cut(key@, 0, want as int, 0),
        decreases key.len() - pos,
    {
        if key[pos] == SLASH {
            left = left - 1;
            last = pos + 1;
        }
        pos = pos + 1;
    }
    last
}

/// Splits `key` into its prefix and what follows it.
pub fn prefix_split(key: &Vec<u8>) -> (r: (&[u8], &[u8]))
    ensures
        r.0@ == prefix_of(key@),
        r.1@ == suffix_of(key@),
{
    let n = split_point(key.as_slice());
    (slice_subrange(key.as_slice(), 0, n), slice_subrange(key.as_slice(), n, key.len()))
}

/// The prefix and the ends, within that prefix, of the keys from `start` up
/// to `end`; `None` where the two lie in different prefixes.
///
/// An empty `end` asks for `start` alone.  An `end` that is the prefix of
/// `start` with its last slash replaced by `0` asks for every key of the
/// prefix from `start` on.
pub open spec fn key_range(start: Seq<u8>, end: Seq<u8>) -> Option<(Seq<u8>, BoundView, BoundView)> {
    let lo = BoundView::Included(suffix_of(start));
    if end.len() == 0 {
        Some((prefix_of(start), lo, lo))
    } else if prefix_of(start) == prefix_of(end) {
        Some((prefix_of(start), lo, BoundView::Excluded(suffix_of(end))))
    } else if suffix_of(end).len() > 0 && end.last() == ZERO && prefix_of(start)
        == end.drop_last().push(SLASH) {
        Some((prefix_of(start), lo, BoundView::Unbounded))
    } else {
        None
    }
}

/// Mathematical model of what [`prefix_and_range_of_key`] returns.
pub open spec fn key_range_view(r: Result<(&[u8], (Bound, Bound)), StoreError>) -> Option<
    (Seq<u8>, BoundView, BoundView),
> {
    match r {
        Ok((p, (lo, hi))) => Some((p@, lo@, hi@)),
        Err(_) => None,
    }
}

/// The prefix that a range of keys lies in, and its two ends within that
/// prefix.  Fails with `PrefixMismatch` where the range spans prefixes.
pub fn prefix_and_range_of_key<'a>(start: &'a Vec<u8>, end: &'a Vec<u8>) -> (r: Result<
    (&'a [u8], (Bound, Bound)),
    StoreError,
>)
    ensures
        key_range_view(r) == key_range(start@, end@),
        r is Err ==> r->Err_0 == StoreError::PrefixMismatch,
{
    let (start_prefix, start_suffix) = prefix_split(start);
    if end.len() == 0 {
        return Ok(
            (
                start_prefix,
                (
                    Bound::Included(vstd::slice::slice_to_vec(start_suffix)),
                    Bound::Included(vstd::slice::slice_to_vec(start_suffix)),
                ),
            ),
        );
    }
    let (end_prefix, end_suffix) = prefix_split(end);
    proof {
        crate::prefix::lemma_split_joins(end@);
    }
    if lex_order(start_prefix, end_prefix) != Order::Same {
        if end_suffix.len() > 0 {
            let body = slice_subrange(end.as_slice(), 0, end.len() - 1);
            assert(body@ == end@.drop_last());
            let joined = start_prefix.len() == end.len() && start_prefix[start_prefix.len() - 1]
                == SLASH && lex_order(
                slice_subrange(start_prefix, 0, start_prefix.len() - 1),
                body,
            ) == Order::Same;
            proof {
                let want = end@.drop_last().push(SLASH);
                if joined {
                    assert(start_prefix@ =~= want);
                } else if start_prefix@ == want {
                    assert(start_prefix@.subrange(0, start_prefix@.len() - 1) =~= body@);
                }
            }
            if end[end.len() - 1] == ZERO && joined {
                return Ok(
                    (
                        start_prefix,
                        (Bound::Included(vstd::slice::slice_to_vec(start_suffix)), Bound::Unbounded),
                    ),
                );
            } else {
                return Err(StoreError::PrefixMismatch);
            }
        } else {
            return Err(StoreError::PrefixMismatch);
        }
    }
    Ok(
        (
            start_prefix,
            (
                Bound::Included(vstd::slice::slice_to_vec(start_suffix)),
                Bound::Excluded(vstd::slice::slice_to_vec(end_suffix)),
            ),
        ),
    )
}

} // verus!
