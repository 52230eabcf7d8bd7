//! An ordered index from byte strings to positions: a vector of entries kept
//! in strictly ascending lexicographic order, searched by bisection.

use crate::lex::{
    lemma_lex_asymmetric, lemma_lex_irreflexive, lemma_lex_total, lemma_lex_transitive, lex_lt,
    lex_order, Order,
};
use vstd::prelude::*;

verus! {

/// One end of a range of keys.
#[derive(Debug, PartialEq, Eq)]
pub enum Bound {
    Included(Vec<u8>),
    Excluded(Vec<u8>),
    Unbounded,
}

/// Mathematical model of a [`Bound`].
pub enum BoundView {
    Included(Seq<u8>),
    Excluded(Seq<u8>),
    Unbounded,
}

impl View for Bound {
    type V = BoundView;

    open spec fn view(&self) -> BoundView {
        match self {
            Bound::Included(k) => BoundView::Included(k@),
            Bound::Excluded(k) => BoundView::Excluded(k@),
            Bound::Unbounded => BoundView::Unbounded,
        }
    }
}

/// `key` is not below the lower end `lo`.
pub open spec fn above(key: Seq<u8>, lo: BoundView) -> bool {
    match lo {
        BoundView::Included(k) => !lex_lt(key, k),
        BoundView::Excluded(k) => lex_lt(k, key),
        BoundView::Unbounded => true,
    }
}

/// `key` is not above the upper end `hi`.
pub open spec fn below(key: Seq<u8>, hi: BoundView) -> bool {
    match hi {
        BoundView::Included(k) => !lex_lt(k, key),
        BoundView::Excluded(k) => lex_lt(key, k),
        BoundView::Unbounded => true,
    }
}

/// `key` lies between `lo` and `hi`.
pub open spec fn within(key: Seq<u8>, lo: BoundView, hi: BoundView) -> bool {
    above(key, lo) && below(key, hi)
}

/// The entries of `entries` whose key lies between `lo` and `hi`, in order.
pub open spec fn select(entries: Seq<(Seq<u8>, usize)>, lo: BoundView, hi: BoundView) -> Seq<
    (Seq<u8>, usize),
> {
    entries.filter(|e: (Seq<u8>, usize)| within(e.0, lo, hi))
}

/// Keys ascend strictly from each entry to the next.
pub open spec fn ascending(entries: Seq<(Seq<u8>, usize)>) -> bool {
    forall|i: int, j: int|
        0 <= i < j < entries.len() ==> lex_lt(#[trigger] entries[i].0, #[trigger] entries[j].0)
}

/// Some entry of `entries` has the key `key`.
pub open spec fn has_key(entries: Seq<(Seq<u8>, usize)>, key: Seq<u8>) -> bool {
    exists|i: int| 0 <= i < entries.len() && (#[trigger] entries[i]).0 == key
}

/// Where a predicate holds exactly on the positions `a .. b`, filtering by
/// it keeps exactly that stretch.
pub proof fn lemma_filter_stretch<A>(s: Seq<A>, pred: spec_fn(A) -> bool, a: int, b: int)
    requires
        0 <= a <= b <= s.len(),
        forall|i: int| 0 <= i < s.len() ==> (pred(#[trigger] s[i]) <==> a <= i < b),
    ensures
        s.filter(pred) == s.subrange(a, b),
    decreases s.len(),
{
    reveal(Seq::filter);
    if s.len() == 0 {
        assert(s.filter(pred) =~= s.subrange(a, b));
    } else {
        let front = s.drop_last();
        let n = s.len() - 1;
        assert forall|i: int| 0 <= i < front.len() implies (pred(#[trigger] front[i]) <==> a
            <= i < if b <= n {
            b
        } else {
            n
        }) by {
            assert(front[i] == s[i]);
        }
        if b <= n {
            lemma_filter_stretch(front, pred, a, b);
            assert(!pred(s[n]));
            assert(front.subrange(a, b) =~= s.subrange(a, b));
        } else if a <= n {
            lemma_filter_stretch(front, pred, a, n);
            assert(pred(s[n]));
            assert(front.subrange(a, n).push(s[n]) =~= s.subrange(a, b));
        } else {
            lemma_filter_stretch(front, pred, n, n);
            assert(!pred(s[n]));
            assert(front.subrange(n, n) =~= s.subrange(a, b));
        }
    }
}

pub struct IndexEntry {
    pub key: Vec<u8>,
    pub slot: usize,
}

pub struct OrderedIndex {
    entries: Vec<IndexEntry>,
}

impl View for OrderedIndex {
    type V = Seq<(Seq<u8>, usize)>;

    closed spec fn view(&self) -> Seq<(Seq<u8>, usize)> {
        Seq::new(self.entries.len() as nat, |i: int| (self.entries[i].key@, self.entries[i].slot))
    }
}

impl OrderedIndex {
    pub closed spec fn wf(&self) -> bool {
        ascending(self@)
    }

    /// The entries of a well-formed index ascend.
    pub proof fn lemma_wf(&self)
        requires
            self.wf(),
        ensures
            ascending(self@),
    {
    }

    pub fn new() -> (r: Self)
        ensures
            r.wf(),
            r@ == Seq::<(Seq<u8>, usize)>::empty(),
    {
        let r = OrderedIndex { entries: Vec::new() };
        assert(r@ =~= Seq::<(Seq<u8>, usize)>::empty());
        r
    }

    pub fn len(&self) -> (n: usize)
        ensures
            n == self@.len(),
    {
        self.entries.len()
    }

    /// The key of the entry at position `i`.
    pub fn key_at(&self, i: usize) -> (k: &Vec<u8>)
        requires
            i < self@.len(),
        ensures
            k@ == self@[i as int].0,
    {
        &self.entries[i].key
    }

    /// The position stored in the entry at position `i`.
    pub fn slot_at(&self, i: usize) -> (s: usize)
        requires
            i < self@.len(),
        ensures
            s == self@[i as int].1,
    {
        self.entries[i].slot
    }

    /// The number of entries whose key is below `key`; they are the first
    /// that many.
    pub fn lower_bound(&self, key: &[u8]) -> (pos: usize)
        requires
            self.wf(),
        ensures
            pos <= self@.len(),
            forall|i: int| 0 <= i < pos ==> lex_lt(#[trigger] self@[i].0, key@),
            forall|i: int| pos <= i < self@.len() ==> !lex_lt(#[trigger] self@[i].0, key@),
    {
        let mut lo: usize = 0;
        let mut hi: usize = self.entries.len();
        while lo < hi
            invariant
                self.wf(),
                lo <= hi <= self.entries.len(),
                forall|i: int| 0 <= i < lo ==> lex_lt(#[trigger] self@[i].0, key@),
                forall|i: int| hi <= i < self@.len() ==> !lex_lt(#[trigger] self@[i].0, key@),
            decreases hi - lo,
        {
            let mid = lo + (hi - lo) / 2;
            let ghost here = self@[mid as int].0;
            match lex_order(self.entries[mid].key.as_slice(), key) {
                Order::Before => {
                    assert forall|i: int| 0 <= i < mid + 1 implies lex_lt(
                        #[trigger] self@[i].0,
                        key@,
                    ) by {
                        if i < mid {
                            lemma_lex_transitive(self@[i].0, here, key@);
                        }
                    }
                    lo = mid + 1;
                },
                _ => {
                    assert forall|i: int| mid <= i < self@.len() implies !lex_lt(
                        #[trigger] self@[i].0,
                        key@,
                    ) by {
                        if i > mid && lex_lt(self@[i].0, key@) {
                            lemma_lex_transitive(here, self@[i].0, key@);
                        }
                    }
                    hi = mid;
                },
            }
        }
        lo
    }

    /// The number of entries whose key is not above `key`.
    pub fn upper_bound(&self, key: &[u8]) -> (pos: usize)
        requires
            self.wf(),
        ensures
            pos <= self@.len(),
            forall|i: int| 0 <= i < pos ==> !lex_lt(key@, #[trigger] self@[i].0),
            forall|i: int| pos <= i < self@.len() ==> lex_lt(key@, #[trigger] self@[i].0),
    {
        let at = self.lower_bound(key);
        let found = at < self.entries.len() && lex_order(self.entries[at].key.as_slice(), key)
            == Order::Same;
        let pos = if found {
            at + 1
        } else {
            at
        };
        proof {
            assert forall|i: int| 0 <= i < pos implies !lex_lt(key@, #[trigger] self@[i].0) by {
                if i < at {
                    lemma_lex_asymmetric(self@[i].0, key@);
                } else {
                    lemma_lex_irreflexive(key@);
                }
            }
            assert forall|i: int| pos <= i < self@.len() implies lex_lt(
                key@,
                #[trigger] self@[i].0,
            ) by {
                lemma_lex_total(key@, self@[at as int].0);
                if found {
                    assert(self@[at as int].0 == key@);
                } else if i > at {
                    lemma_lex_transitive(key@, self@[at as int].0, self@[i].0);
                }
            }
        }
        pos
    }

    /// The stretch `a .. b` of positions whose keys lie between `lo` and
    /// `hi`; it is empty where the two ends exclude every key.
    pub fn range(&self, lo: &Bound, hi: &Bound) -> (r: (usize, usize))
        requires
            self.wf(),
        ensures
            r.0 <= r.1 <= self@.len(),
            self@.subrange(r.0 as int, r.1 as int) == select(self@, lo@, hi@),
            forall|i: int|
                0 <= i < self@.len() ==> (within((#[trigger] self@[i]).0, lo@, hi@) <==> r.0 <= i
                    < r.1),
    {
        let a = match lo {
            Bound::Included(k) => self.lower_bound(k.as_slice()),
            Bound::Excluded(k) => self.upper_bound(k.as_slice()),
            Bound::Unbounded => 0,
        };
        let b = match hi {
            Bound::Included(k) => self.upper_bound(k.as_slice()),
            Bound::Excluded(k) => self.lower_bound(k.as_slice()),
            Bound::Unbounded => self.entries.len(),
        };
        let b = if b < a {
            a
        } else {
            b
        };
        proof {
            assert forall|i: int| 0 <= i < self@.len() implies (within(
                (#[trigger] self@[i]).0,
                lo@,
                hi@,
            ) <==> a <= i < b) by {
                assert(above(self@[i].0, lo@) <==> a <= i);
            }
            lemma_filter_stretch(
                self@,
                |e: (Seq<u8>, usize)| within(e.0, lo@, hi@),
                a as int,
                b as int,
            );
        }
        (a, b)
    }

    /// Puts `key` with `slot` at its place in the order and returns that
    /// place; an entry that already has the key is overwritten.
    pub fn insert(&mut self, key: Vec<u8>, slot: usize) -> (pos: usize)
        requires
            old(self).wf(),
        ensures
            final(self).wf(),
            pos <= old(self)@.len(),
            has_key(old(self)@, key@) ==> pos < old(self)@.len() && old(self)@[pos as int].0
                == key@ && final(self)@ == old(self)@.update(pos as int, (key@, slot)),
            !has_key(old(self)@, key@) ==> final(self)@ == old(self)@.insert(
                pos as int,
                (key@, slot),
            ),
            forall|i: int| 0 <= i < pos ==> lex_lt(#[trigger] old(self)@[i].0, key@),
    {
        let pos = self.lower_bound(key.as_slice());
        let found = pos < self.entries.len() && lex_order(
            self.entries[pos].key.as_slice(),
            key.as_slice(),
        ) == Order::Same;
        proof {
            if has_key(self@, key@) {
                let w = choose|i: int| 0 <= i < self@.len() && (#[trigger] self@[i]).0 == key@;
                lemma_lex_irreflexive(key@);
                assert(w >= pos);
                if w > pos {
                    lemma_lex_total(key@, self@[pos as int].0);
                    lemma_lex_asymmetric(self@[pos as int].0, self@[w].0);
                }
                assert(found);
            }
        }
        if found {
            assert(has_key(self@, key@)) by {
                assert(self@[pos as int].0 == key@);
            }
            self.entries[pos].slot = slot;
            proof {
                assert(self@ =~= old(self)@.update(pos as int, (key@, slot)));
                assert forall|i: int, j: int| 0 <= i < j < self@.len() implies lex_lt(
                    #[trigger] self@[i].0,
                    #[trigger] self@[j].0,
                ) by {
                    assert(self@[i].0 == old(self)@[i].0);
                    assert(self@[j].0 == old(self)@[j].0);
                }
            }
        } else {
            let ghost kv = key@;
            self.entries.insert(pos, IndexEntry { key, slot });
            proof {
                assert(self@ =~= old(self)@.insert(pos as int, (kv, slot)));
                assert forall|i: int, j: int| 0 <= i < j < self@.len() implies lex_lt(
                    #[trigger] self@[i].0,
                    #[trigger] self@[j].0,
                ) by {
                    if j == pos {
                        assert(self@[i].0 == old(self)@[i].0);
                    } else if i == pos {
                        assert(self@[j].0 == old(self)@[j - 1].0);
                        lemma_lex_total(kv, old(self)@[pos as int].0);
                        if j - 1 > pos {
                            lemma_lex_transitive(
                                kv,
                                old(self)@[pos as int].0,
                                old(self)@[j - 1].0,
                            );
                        }
                    } else {
                        let oi = if i < pos {
                            i
                        } else {
                            i - 1
                        };
                        let oj = if j < pos {
                            j
                        } else {
                            j - 1
                        };
                        assert(self@[i].0 == old(self)@[oi].0);
                        assert(self@[j].0 == old(self)@[oj].0);
                    }
                }
            }
        }
        pos
    }
}

} // verus!
