//! The registry of watchers, ordered by the start of the watched range and
//! then by watcher id.

use crate::lex::{
    lemma_lex_asymmetric, lemma_lex_irreflexive, lemma_lex_total, lemma_lex_transitive, lex_lt,
    lex_order, Order,
};
use vstd::prelude::*;

verus! {

/// A registered interest in the changes of one key or of a range of keys.
#[derive(Debug)]
pub struct Watcher {
    /// Changes at earlier revisions are not reported.
    pub start_revision: i64,
    pub key_range_start: Vec<u8>,
    /// Empty where the single key `key_range_start` is watched; otherwise
    /// the first key that is no longer watched.
    pub key_range_end: Vec<u8>,
}

/// Mathematical model of a registered [`Watcher`], with the id it was given.
pub struct WatcherView {
    pub id: i64,
    pub start_revision: i64,
    pub key_range_start: Seq<u8>,
    pub key_range_end: Seq<u8>,
}

impl WatcherView {
    /// The watched range holds `key`.
    pub open spec fn covers(self, key: Seq<u8>) -> bool {
        if self.key_range_end.len() == 0 {
            key == self.key_range_start
        } else {
            lex_lt(key, self.key_range_end) && !lex_lt(key, self.key_range_start)
        }
    }

    /// A change of `key` at revision `rev` is reported to this watcher.
    pub open spec fn wants(self, key: Seq<u8>, rev: i64) -> bool {
        self.start_revision <= rev && self.covers(key)
    }
}

/// `a` stands before `b` in the registry.
pub open spec fn registered_before(a: WatcherView, b: WatcherView) -> bool {
    lex_lt(a.key_range_start, b.key_range_start) || (a.key_range_start == b.key_range_start
        && a.id < b.id)
}

/// The ids of the watchers in `ws` to which a change of `key` at revision
/// `rev` is reported, in registry order.
pub open spec fn matched(ws: Seq<WatcherView>, key: Seq<u8>, rev: i64) -> Seq<i64> {
    ws.filter(wanting(key, rev)).map_values(id_of())
}

/// The test that a watcher is told of a change of `key` at revision `rev`.
pub open spec fn wanting(key: Seq<u8>, rev: i64) -> spec_fn(WatcherView) -> bool {
    |w: WatcherView| w.wants(key, rev)
}

/// The id of a watcher.
pub open spec fn id_of() -> spec_fn(WatcherView) -> i64 {
    |w: WatcherView| w.id
}

/// The test that a watcher is not the one registered under `start` and `id`.
pub open spec fn other_than(start: Seq<u8>, id: i64) -> spec_fn(WatcherView) -> bool {
    |w: WatcherView| !(w.key_range_start == start && w.id == id)
}

/// What is left of `ws` when the watcher registered under `start` and `id`
/// is taken out.
pub open spec fn without(ws: Seq<WatcherView>, start: Seq<u8>, id: i64) -> Seq<WatcherView> {
    ws.filter(other_than(start, id))
}

proof fn lemma_filter_step<A>(s: Seq<A>, pred: spec_fn(A) -> bool, i: int)
    requires
        0 <= i < s.len(),
    ensures
        s.take(i + 1).filter(pred) == if pred(s[i]) {
            s.take(i).filter(pred).push(s[i])
        } else {
            s.take(i).filter(pred)
        },
{
    reveal(Seq::filter);
    assert(s.take(i + 1).drop_last() =~= s.take(i));
}

proof fn lemma_filter_rest<A>(s: Seq<A>, pred: spec_fn(A) -> bool, i: int)
    requires
        0 <= i <= s.len(),
        forall|j: int| i <= j < s.len() ==> !pred(#[trigger] s[j]),
    ensures
        s.filter(pred) == s.take(i).filter(pred),
    decreases s.len() - i,
{
    if i < s.len() {
        lemma_filter_step(s, pred, i);
        lemma_filter_rest(s, pred, i + 1);
    } else {
        assert(s.take(i) =~= s);
    }
}

struct Registered {
    id: i64,
    watcher: Watcher,
}

pub struct WatcherRegistry {
    entries: Vec<Registered>,
}

impl View for WatcherRegistry {
    type V = Seq<WatcherView>;

    closed spec fn view(&self) -> Seq<WatcherView> {
        Seq::new(
            self.entries.len() as nat,
            |i: int|
                WatcherView {
                    id: self.entries[i].id,
                    start_revision: self.entries[i].watcher.start_revision,
                    key_range_start: self.entries[i].watcher.key_range_start@,
                    key_range_end: self.entries[i].watcher.key_range_end@,
                },
        )
    }
}

/// Each watcher stands before those that follow it.
pub open spec fn in_registry_order(ws: Seq<WatcherView>) -> bool {
    forall|i: int, j: int|
        0 <= i < j < ws.len() ==> registered_before(#[trigger] ws[i], #[trigger] ws[j])
}

impl WatcherRegistry {
    pub closed spec fn wf(&self) -> bool {
        in_registry_order(self@)
    }

    pub proof fn lemma_wf(&self)
        requires
            self.wf(),
        ensures
            in_registry_order(self@),
    {
    }

    pub fn new() -> (r: Self)
        ensures
            r.wf(),
            r@ == Seq::<WatcherView>::empty(),
    {
        let r = WatcherRegistry { entries: Vec::new() };
        assert(r@ =~= Seq::<WatcherView>::empty());
        r
    }

    pub fn len(&self) -> (n: usize)
        ensures
            n == self@.len(),
    {
        self.entries.len()
    }

    /// Registers `watcher` under `id`, behind the watchers with the same
    /// start; returns the position it was given.
    pub fn insert(&mut self, id: i64, watcher: Watcher) -> (pos: usize)
        requires
            old(self).wf(),
            forall|i: int| 0 <= i < old(self)@.len() ==> (#[trigger] old(self)@[i]).id < id,
        ensures
            final(self).wf(),
            pos <= old(self)@.len(),
            final(self)@ == old(self)@.insert(
                pos as int,
                WatcherView {
                    id,
                    start_revision: watcher.start_revision,
                    key_range_start: watcher.key_range_start@,
                    key_range_end: watcher.key_range_end@,
                },
            ),
            forall|i: int|
                0 <= i < old(self)@.len() ==> (lex_lt(
                    watcher.key_range_start@,
                    (#[trigger] old(self)@[i]).key_range_start,
                ) <==> pos <= i),
    {
        let ghost start = watcher.key_range_start@;
        let ghost added = WatcherView {
            id,
            start_revision: watcher.start_revision,
            key_range_start: watcher.key_range_start@,
            key_range_end: watcher.key_range_end@,
        };
        let mut pos: usize = 0;
        while pos < self.entries.len() && lex_order(
            self.entries[pos].watcher.key_range_start.as_slice(),
            watcher.key_range_start.as_slice(),
        ) != Order::After
            invariant
                pos <= self.entries.len(),
                start == watcher.key_range_start@,
                forall|i: int| 0 <= i < pos ==> !lex_lt(start, (#[trigger] self@[i]).key_range_start),
            decreases self.entries.len() - pos,
        {
            assert(self@[pos as int].key_range_start
                == self.entries[pos as int].watcher.key_range_start@);
            pos = pos + 1;
        }
        proof {
            if pos < self.entries.len() {
                assert(self@[pos as int].key_range_start
                    == self.entries[pos as int].watcher.key_range_start@);
            }
            assert forall|i: int| 0 <= i < self@.len() implies (lex_lt(
                start,
                (#[trigger] self@[i]).key_range_start,
            ) <==> pos <= i) by {
                if i > pos {
                    assert(registered_before(self@[pos as int], self@[i]));
                    if self@[pos as int].key_range_start != self@[i].key_range_start {
                        lemma_lex_transitive(
                            start,
                            self@[pos as int].key_range_start,
                            self@[i].key_range_start,
                        );
                    }
                }
            }
        }
        self.entries.insert(pos, Registered { id, watcher });
        proof {
            assert(self@ =~= old(self)@.insert(pos as int, added));
            assert forall|i: int, j: int| 0 <= i < j < self@.len() implies registered_before(
                #[trigger] self@[i],
                #[trigger] self@[j],
            ) by {
                let oi = if i < pos {
                    i
                } else {
                    i - 1
                };
                let oj = if j < pos {
                    j
                } else {
                    j - 1
                };
                if j == pos {
                    assert(self@[i] == old(self)@[i]);
                    lemma_lex_total(old(self)@[i].key_range_start, start);
                } else if i == pos {
                    assert(self@[j] == old(self)@[j - 1]);
                    assert(lex_lt(start, old(self)@[pos as int].key_range_start));
                    if j - 1 > pos {
                        assert(registered_before(old(self)@[pos as int], old(self)@[j - 1]));
                        if old(self)@[pos as int].key_range_start != old(self)@[j
                            - 1].key_range_start {
                            lemma_lex_transitive(
                                start,
                                old(self)@[pos as int].key_range_start,
                                old(self)@[j - 1].key_range_start,
                            );
                        }
                    }
                } else {
                    assert(self@[i] == old(self)@[oi]);
                    assert(self@[j] == old(self)@[oj]);
                }
            }
        }
        pos
    }

    /// Takes out the watcher registered under `start` and `id`, if there is
    /// one.
    pub fn remove(&mut self, start: &[u8], id: i64)
        requires
            old(self).wf(),
        ensures
            final(self).wf(),
            final(self)@ == without(old(self)@, start@, id),
    {
        let ghost keep = other_than(start@, id);
        let mut i: usize = 0;
        while i < self.entries.len()
            invariant
                i <= self.entries.len(),
                self@ == old(self)@,
                self.wf(),
                keep == other_than(start@, id),
                forall|j: int| 0 <= j < i ==> keep(#[trigger] self@[j]),
            decreases self.entries.len() - i,
        {
            assert(self@[i as int].key_range_start == self.entries[i as int].watcher.key_range_start@);
            if self.entries[i].id == id && lex_order(
                self.entries[i].watcher.key_range_start.as_slice(),
                start,
            ) == Order::Same {
                let ghost before = self@;
                self.entries.remove(i);
                proof {
                    assert(self@ =~= before.remove(i as int));
                    assert forall|j: int| 0 <= j < before.len() implies (keep(#[trigger] before[j])
                        <==> j != i) by {
                        if j != i && !keep(before[j]) {
                            if j < i {
                                assert(registered_before(before[j], before[i as int]));
                            } else {
                                assert(registered_before(before[i as int], before[j]));
                            }
                            lemma_lex_irreflexive(start@);
                        }
                    }
                    lemma_keep_all_but_one(before, keep, i as int);
                    assert forall|a: int, b: int| 0 <= a < b < self@.len() implies registered_before(
                        #[trigger] self@[a],
                        #[trigger] self@[b],
                    ) by {
                        let oa = if a < i {
                            a
                        } else {
                            a + 1
                        };
                        let ob = if b < i {
                            b
                        } else {
                            b + 1
                        };
                        assert(self@[a] == before[oa]);
                        assert(self@[b] == before[ob]);
                    }
                }
                return ;
            }
            i = i + 1;
        }
        proof {
            lemma_keep_all(self@, keep);
        }
    }

    /// The ids of the watchers to which a change of `key` at revision `rev`
    /// is reported, in registry order.
    pub fn matching(&self, key: &[u8], rev: i64) -> (ids: Vec<i64>)
        requires
            self.wf(),
        ensures
            ids@ == matched(self@, key@, rev),
    {
        let ghost wants = wanting(key@, rev);
        let ghost id_of = id_of();
        let mut ids: Vec<i64> = Vec::new();
        let mut i: usize = 0;
        assert(self@.take(0).filter(wants) =~= Seq::<WatcherView>::empty()) by {
            reveal(Seq::filter);
        }
        assert(ids@ =~= self@.take(0).filter(wants).map_values(id_of));
        while i < self.entries.len()
            invariant
                i <= self.entries.len(),
                self.wf(),
                wants == wanting(key@, rev),
                id_of == crate::watchers::id_of(),
                ids@ == self@.take(i as int).filter(wants).map_values(id_of),
            decreases self.entries.len() - i,
        {
            let entry = &self.entries[i];
            let ghost w = self@[i as int];
            assert(w.key_range_start == entry.watcher.key_range_start@);
            assert(w.key_range_end == entry.watcher.key_range_end@);
            let place = lex_order(key, entry.watcher.key_range_start.as_slice());
            if place == Order::Before {
                proof {
                    assert forall|j: int| i <= j < self@.len() implies !wants(
                        #[trigger] self@[j],
                    ) by {
                        let other = self@[j];
                        if j > i {
                            assert(registered_before(w, other));
                            if w.key_range_start != other.key_range_start {
                                lemma_lex_transitive(key@, w.key_range_start, other.key_range_start);
                            }
                        }
                        lemma_lex_asymmetric(key@, other.key_range_start);
                    }
                    lemma_filter_rest(self@, wants, i as int);
                }
                return ids;
            }
            let hit = if entry.watcher.start_revision > rev {
                false
            } else if entry.watcher.key_range_end.len() == 0 {
                place == Order::Same
            } else {
                lex_order(key, entry.watcher.key_range_end.as_slice()) == Order::Before
            };
            proof {
                lemma_lex_asymmetric_or_same(key@, w.key_range_start, place);
                assert(hit == wants(w));
                lemma_filter_step(self@, wants, i as int);
            }
            if hit {
                ids.push(entry.id);
            }
            assert(ids@ =~= self@.take(i + 1).filter(wants).map_values(id_of));
            i = i + 1;
        }
        assert(self@.take(i as int) =~= self@);
        ids
    }
}

/// A key that does not stand before `start` is not below it.
proof fn lemma_lex_asymmetric_or_same(key: Seq<u8>, start: Seq<u8>, place: Order)
    requires
        place != Order::Before,
        place == Order::Before <==> lex_lt(key, start),
        place == Order::Same <==> key == start,
        place == Order::After <==> lex_lt(start, key),
    ensures
        !lex_lt(key, start),
{
}

proof fn lemma_keep_all<A>(s: Seq<A>, keep: spec_fn(A) -> bool)
    requires
        forall|j: int| 0 <= j < s.len() ==> keep(#[trigger] s[j]),
    ensures
        s.filter(keep) == s,
{
    crate::ordered::lemma_filter_stretch(s, keep, 0, s.len() as int);
    assert(s.subrange(0, s.len() as int) =~= s);
}

proof fn lemma_keep_all_but_one<A>(s: Seq<A>, keep: spec_fn(A) -> bool, i: int)
    requires
        0 <= i < s.len(),
        forall|j: int| 0 <= j < s.len() ==> (keep(#[trigger] s[j]) <==> j != i),
    ensures
        s.filter(keep) == s.remove(i),
{
    let front = s.take(i);
    let back = s.skip(i + 1);
    assert(s =~= front.push(s[i]) + back);
    Seq::filter_distributes_over_add(front.push(s[i]), back, keep);
    lemma_keep_all(back, keep);
    lemma_filter_step(s, keep, i);
    assert(s.take(i + 1) =~= front.push(s[i]));
    lemma_keep_all(front, keep);
    assert(s.remove(i) =~= front + back);
}

} // verus!
