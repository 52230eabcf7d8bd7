//! The multi-version store: a log of values by revision, the chain of
//! revisions of every key, an ordered index of the keys of each prefix, and
//! the registry of watchers.

use crate::block_deque::{BlockDeque, DequeView};
use crate::chain::{count_below, lower_bound, pruned};
use crate::laws::{after_writes, lemma_write_takes_one_revision, Write};
use crate::model::{is_before, is_within, placed, ItemView, NotifyJobView, StoreView};
use crate::notify::{jobs_view, NotifyJob};
use crate::ordered::{has_key, lemma_filter_stretch, Bound, OrderedIndex};
use crate::prefix::{
    lemma_split_joins, prefix_and_range_of_key, prefix_of, prefix_split, suffix_of,
};
use crate::replay::records_view;
use crate::shared_map::{map_contents, map_get, map_insert, map_new, positions, ByteMap};
use crate::soundness::{
    lemma_compact_keeps_inv, lemma_set_keeps_inv, lemma_stands_before, lemma_unwatch_keeps_inv,
    lemma_watch_keeps_inv,
};
use crate::types::{
    as_mvcc_key_value, events_view, kvs_view, opt_bytes_view, opt_kv_view, project,
    range_answer_view, set_answer_view, watch_answer_view, EventView, KeyValue, KeyValueWithPrev,
    RangeResult, SetRequired, StoreError, Value, ValueView,
};
use crate::wal::{WalMode, WalRecord, WalRecordView, WalSettings};
use crate::watchers::{matched, Watcher, WatcherRegistry};
use bytes::Bytes;
use vstd::prelude::*;

verus! {

/// The history of one key.
pub struct TreeItem {
    pub key: Vec<u8>,
    pub revisions: Vec<i64>,
    pub latest_value: Value,
}

impl View for TreeItem {
    type V = ItemView;

    open spec fn view(&self) -> ItemView {
        ItemView { key: self.key@, revisions: self.revisions@, latest_value: self.latest_value@ }
    }
}

/// The keys of one prefix, in order.
pub struct PrefixMapItem {
    pub prefix: Vec<u8>,
    pub btree: OrderedIndex,
}

/// The model of the log of values.
pub open spec fn log_view(d: DequeView<Value>) -> DequeView<ValueView> {
    DequeView { start: d.start, elems: d.elems.map_values(|v: Value| v@) }
}

/// The suffixes that an ordered index lists.
pub open spec fn suffixes(entries: Seq<(Seq<u8>, usize)>) -> Seq<Seq<u8>> {
    entries.map_values(|e: (Seq<u8>, usize)| e.0)
}

/// The keys of the histories in `items`.
pub open spec fn keys_of(items: Seq<TreeItem>) -> Seq<Seq<u8>> {
    items.map_values(|t: TreeItem| t.key@)
}

/// The prefixes of the lists in `prefixes`.
pub open spec fn prefixes_of(prefixes: Seq<PrefixMapItem>) -> Seq<Seq<u8>> {
    prefixes.map_values(|p: PrefixMapItem| p.prefix@)
}

/// Each entry of the list names the history of the key it stands for.
pub open spec fn links(p: PrefixMapItem, items: Seq<TreeItem>) -> bool {
    forall|e: int|
        0 <= e < p.btree@.len() ==> (#[trigger] p.btree@[e]).1 < items.len() && items[p.btree@[e].1 as int].key@
            == p.prefix@ + p.btree@[e].0
}

/// The suffix of an entry is below `x`.
pub open spec fn lex_lt_entry(e: (Seq<u8>, usize), x: Seq<u8>) -> bool {
    crate::lex::lex_lt(e.0, x)
}

/// The writes that replaying the records `records` makes.
pub open spec fn replayed(records: Seq<WalRecordView>) -> Seq<Write> {
    records.map_values(|r: WalRecordView| Write { key: r.key, value: r.value, required: None })
}

/// The model of an optional value.
pub open spec fn opt_value_view(o: Option<Value>) -> Option<ValueView> {
    match o {
        Some(v) => Some(v@),
        None => None,
    }
}

pub struct Store {
    /// Prefix to the position of its list in `prefixes`.
    prefix_map: ByteMap,
    prefixes: Vec<PrefixMapItem>,
    /// Key to the position of its history in `items`.
    tree_map: ByteMap,
    items: Vec<TreeItem>,
    values_by_revision: BlockDeque<Value, 1048576>,
    watchers: WatcherRegistry,
    watch_counter: i64,
    wal_mode: Option<WalMode>,
    /// Notifications that have not been taken yet.
    notify_queue: Vec<NotifyJob>,
}

impl View for Store {
    type V = StoreView;

    closed spec fn view(&self) -> StoreView {
        StoreView {
            log: log_view(self.values_by_revision@),
            items: Map::new(
                |k: Seq<u8>| map_contents(self.tree_map).contains_key(k),
                |k: Seq<u8>| self.items[map_contents(self.tree_map)[k] as int]@,
            ),
            index: Map::new(
                |p: Seq<u8>| map_contents(self.prefix_map).contains_key(p),
                |p: Seq<u8>| suffixes(self.prefixes[map_contents(self.prefix_map)[p] as int].btree@),
            ),
            watchers: self.watchers@,
            watch_counter: self.watch_counter,
            wal_mode: self.wal_mode,
            queue: jobs_view(self.notify_queue@),
        }
    }
}

impl Store {
    /// The indexes agree with the histories, and the model is sound.
    #[verifier::opaque]
    pub closed spec fn wf(&self) -> bool {
        &&& self.values_by_revision.wf()
        &&& self.watchers.wf()
        &&& self.items.len() <= self.values_by_revision@.end()
        &&& self.watchers@.len() <= self.watch_counter
        &&& positions(map_contents(self.tree_map), keys_of(self.items@))
        &&& positions(map_contents(self.prefix_map), prefixes_of(self.prefixes@))
        &&& forall|j: int|
            0 <= j < self.prefixes.len() ==> (#[trigger] self.prefixes[j]).btree.wf() && links(
                self.prefixes[j],
                self.items@,
            ) && self.prefixes[j].btree@.len() <= self.items.len()
        &&& self@.inv()
    }

    /// The list that the prefix index gives for a prefix is the one that
    /// the model has.
    proof fn lemma_prefix(&self, p: Seq<u8>)
        requires
            self.wf(),
        ensures
            self@.index.contains_key(p) == map_contents(self.prefix_map).contains_key(p),
            map_contents(self.prefix_map).contains_key(p) ==> {
                let j = map_contents(self.prefix_map)[p] as int;
                &&& 0 <= j < self.prefixes.len()
                &&& self.prefixes[j].prefix@ == p
                &&& self.prefixes[j].btree.wf()
                &&& self.prefixes[j].btree@.len() <= self.items.len()
                &&& self@.index[p] == suffixes(self.prefixes[j].btree@)
            },
    {
        reveal(Store::wf);
        if map_contents(self.prefix_map).contains_key(p) {
            let j = map_contents(self.prefix_map)[p] as int;
            assert(prefixes_of(self.prefixes@)[j] == p);
        }
    }

    /// An entry of a list names the history that the model has under the
    /// entry's key.
    proof fn lemma_entry(&self, j: int, e: int)
        requires
            self.wf(),
            0 <= j < self.prefixes.len(),
            0 <= e < self.prefixes[j].btree@.len(),
        ensures
            self.prefixes[j].btree@[e].1 < self.items.len(),
            self.items[self.prefixes[j].btree@[e].1 as int].key@ == self.prefixes[j].prefix@
                + self.prefixes[j].btree@[e].0,
            self@.items[self.prefixes[j].prefix@ + self.prefixes[j].btree@[e].0]
                == self.items[self.prefixes[j].btree@[e].1 as int]@,
    {
        reveal(Store::wf);
        assert(links(self.prefixes[j], self.items@));
        let slot = self.prefixes[j].btree@[e].1 as int;
        assert(keys_of(self.items@)[slot] == self.items[slot].key@);
    }

    /// A store that is well formed meets what holds of every state.
    pub proof fn lemma_inv(&self)
        requires
            self.wf(),
        ensures
            self@.inv(),
    {
        reveal(Store::wf);
    }

    /// The parts of a well-formed store are well formed.
    proof fn lemma_parts(&self)
        requires
            self.wf(),
        ensures
            self@.inv(),
            self.values_by_revision.wf(),
            self.watchers.wf(),
            0 <= self.values_by_revision@.start,
            self.values_by_revision@.end() <= usize::MAX,
            self.items.len() <= self.values_by_revision@.end(),
            self.watchers@.len() <= self.watch_counter,
            self@.latest() == self.values_by_revision@.end(),
            self@.earliest() == self.values_by_revision@.start,
    {
        reveal(Store::wf);
        self.values_by_revision.lemma_bounds();
    }

    /// The position that the key index gives for a key is that of its
    /// history.
    proof fn lemma_position(&self, key: Seq<u8>)
        requires
            self.wf(),
        ensures
            self@.items.contains_key(key) == map_contents(self.tree_map).contains_key(key),
            map_contents(self.tree_map).contains_key(key) ==> {
                &&& map_contents(self.tree_map)[key] < self.items.len()
                &&& self.items[map_contents(self.tree_map)[key] as int].key@ == key
                &&& self@.items[key] == self.items[map_contents(self.tree_map)[key] as int]@
            },
    {
        reveal(Store::wf);
        if map_contents(self.tree_map).contains_key(key) {
            let i = map_contents(self.tree_map)[key] as int;
            assert(keys_of(self.items@)[i] == key);
        }
    }

    /// The history at position `idx` is the one that the model has under
    /// its key.
    proof fn lemma_item(&self, idx: int)
        requires
            self.wf(),
            0 <= idx < self.items.len(),
        ensures
            self@.items.contains_key(self.items[idx].key@),
            self@.items[self.items[idx].key@] == self.items[idx]@,
            self@.item_ok(self.items[idx].key@),
            self@.inv(),
    {
        reveal(Store::wf);
        assert(keys_of(self.items@)[idx] == self.items[idx].key@);
    }

    /// A new, empty store, which persists as `wal_settings` say.
    pub fn new(wal_settings: Option<&WalSettings>) -> (s: Self)
        ensures
            s.wf(),
            s@.latest() == 0,
            s@.earliest() == 0,
            s@.items == Map::<Seq<u8>, ItemView>::empty(),
            s@.index == Map::<Seq<u8>, Seq<Seq<u8>>>::empty(),
            s@.watchers == Seq::<crate::watchers::WatcherView>::empty(),
            s@.watch_counter == 0,
            s@.queue == Seq::<NotifyJobView>::empty(),
            s@.wal_mode == match wal_settings {
                Some(w) => Some(w.default_mode),
                None => None,
            },
    {
        let wal_mode = match wal_settings {
            Some(w) => Some(w.default_mode),
            None => None,
        };
        let s = Store {
            prefix_map: map_new(),
            prefixes: Vec::new(),
            tree_map: map_new(),
            items: Vec::new(),
            values_by_revision: BlockDeque::new(),
            watchers: WatcherRegistry::new(),
            watch_counter: 0,
            wal_mode,
            notify_queue: Vec::new(),
        };
        proof {
            reveal(Store::wf);
            assert(s@.items =~= Map::<Seq<u8>, ItemView>::empty());
            assert(s@.index =~= Map::<Seq<u8>, Seq<Seq<u8>>>::empty());
            assert(s@.queue =~= Seq::<NotifyJobView>::empty());
            assert(s@.log.elems =~= Seq::<ValueView>::empty());
        }
        s
    }

    /// The current revision.
    pub fn current_revision(&self) -> (r: i64)
        requires
            self.wf(),
        ensures
            r == self@.latest(),
    {
        proof {
            self.lemma_parts();
        }
        self.values_by_revision.latest_revision() as i64
    }

    /// The compaction floor.
    pub fn compacted_revision(&self) -> (r: i64)
        requires
            self.wf(),
        ensures
            r == self@.earliest(),
    {
        proof {
            self.lemma_parts();
        }
        self.values_by_revision.earliest_revision() as i64
    }

    /// The number of registered watchers.
    pub fn watcher_count(&self) -> (n: i64)
        requires
            self.wf(),
        ensures
            n == self@.watchers.len(),
    {
        proof {
            self.lemma_parts();
        }
        self.watchers.len() as i64
    }

    /// Whether one more write fits the machine's integers.
    pub fn can_grow(&self) -> (b: bool)
        requires
            self.wf(),
        ensures
            b == self@.can_grow(),
    {
        proof {
            self.lemma_parts();
        }
        let latest = self.values_by_revision.latest_revision();
        latest < usize::MAX && (latest as u64) < (i64::MAX as u64)
    }

    /// Whether one more watcher id fits the machine's integers.
    pub fn can_watch(&self) -> (b: bool)
        ensures
            b == self@.can_watch(),
    {
        self.watch_counter < i64::MAX
    }

    /// Hands out the notifications that have been queued since the last
    /// call, oldest first.
    pub fn take_notifications(&mut self) -> (jobs: Vec<NotifyJob>)
        requires
            old(self).wf(),
        ensures
            final(self).wf(),
            jobs_view(jobs@) == old(self)@.queue,
            final(self)@ == (StoreView { queue: Seq::empty(), ..old(self)@ }),
    {
        let mut jobs: Vec<NotifyJob> = Vec::new();
        core::mem::swap(&mut jobs, &mut self.notify_queue);
        proof {
            reveal(Store::wf);
            assert(self@.queue =~= Seq::<NotifyJobView>::empty());
            assert(self@.items =~= old(self)@.items);
            assert(self@.index =~= old(self)@.index);
            Self::lemma_same_inv(old(self)@, self@);
        }
        jobs
    }

    /// What holds of every state does not speak of the queue.
    proof fn lemma_same_inv(a: StoreView, b: StoreView)
        requires
            a.inv(),
            b == (StoreView { queue: b.queue, ..a }),
        ensures
            b.inv(),
    {
        assert forall|k: Seq<u8>| #[trigger] b.items.contains_key(k) implies b.item_ok(k) by {
            assert(a.item_ok(k));
        }
        assert forall|p: Seq<u8>| #[trigger] b.index.contains_key(p) implies b.list_ok(p) by {
            assert(a.list_ok(p));
        }
    }

    /// The version of the key at position `idx` that a read at revision
    /// `rev` sees.
    fn find_value_for_revision(&self, idx: usize, rev: i64) -> (r: Option<Value>)
        requires
            self.wf(),
            idx < self.items.len(),
            rev > 0,
        ensures
            opt_value_view(r) == self@.resolve(self.items[idx as int]@, rev as int),
    {
        proof {
            self.lemma_item(idx as int);
            self.lemma_parts();
        }
        let item = &self.items[idx];
        if rev >= item.latest_value.mod_revision {
            return Some(item.latest_value.clone());
        }
        let n = lower_bound(&item.revisions, rev + 1);
        if n > 0 {
            let found = item.revisions[n - 1];
            assert(1 <= found <= self@.latest());
            match self.values_by_revision.get(found as usize - 1) {
                Ok(v) => {
                    assert(self@.log.lookup(found - 1) == Some(v@));
                    Some(v)
                },
                Err(_) => {
                    assert(self@.log.lookup(found - 1) is None);
                    None
                },
            }
        } else {
            None
        }
    }

    /// Whether a read at revision `rev` sees the key at position `idx` as
    /// existing.
    fn has_value_for_revision(&self, idx: usize, rev: i64) -> (r: bool)
        requires
            self.wf(),
            idx < self.items.len(),
            rev > 0,
        ensures
            r == self@.live_at(self.items[idx as int]@, rev as int),
    {
        proof {
            self.lemma_item(idx as int);
            self.lemma_parts();
        }
        let item = &self.items[idx];
        if rev >= item.latest_value.mod_revision {
            return item.latest_value.value.is_some();
        }
        let n = lower_bound(&item.revisions, rev + 1);
        if n > 0 {
            let found = item.revisions[n - 1];
            assert(1 <= found <= self@.latest());
            let holds = |x: &Option<Value>| -> (b: bool)
                ensures
                    b == (*x matches Some(v) && v.value is Some),
                {
                    match x {
                        Some(v) => v.value.is_some(),
                        None => false,
                    }
                };
            let r = self.values_by_revision.get_with(found as usize - 1, holds);
            proof {
                let seen = self.values_by_revision@.lookup(found - 1);
                assert(r == (seen matches Some(v) && v.value is Some));
                assert(self@.log.lookup(found - 1) == opt_value_view(seen));
            }
            r
        } else {
            false
        }
    }

    /// Builds the notification of a write: the change as clients see it,
    /// and the watchers whose range covers the key and who asked for
    /// revisions from no later than this one.
    fn notify_watchers(
        &self,
        key: &Vec<u8>,
        value: Value,
        prev_value: Option<Value>,
        prefix: &[u8],
    ) -> (job: NotifyJob)
        requires
            self.watchers.wf(),
        ensures
            job@ == (NotifyJobView {
                rev: value.mod_revision,
                watchers: matched(self.watchers@, key@, value.mod_revision),
                msg: EventView {
                    kv: project(value@, key@),
                    prev_kv: match prev_value {
                        Some(p) => Some(project(p@, key@)),
                        None => None,
                    },
                },
                prefix: prefix@,
                wal_sync: self.wal_mode == Some(WalMode::Sync),
            }),
    {
        let watchers = self.watchers.matching(key.as_slice(), value.mod_revision);
        let rev = value.mod_revision;
        let kv = as_mvcc_key_value(value, key);
        let prev_kv = match prev_value {
            Some(p) => Some(as_mvcc_key_value(p, key)),
            None => None,
        };
        let wal_sync = match self.wal_mode {
            Some(WalMode::Sync) => true,
            _ => false,
        };
        NotifyJob {
            rev,
            watchers,
            msg: KeyValueWithPrev { kv, prev_kv },
            prefix: vstd::slice::slice_to_vec(prefix),
            wal_sync,
        }
    }

    /// The store after a write to a key that has a history is what the
    /// model says.
    proof fn lemma_set_existing(
        before: Store,
        after: Store,
        idx: int,
        key: Seq<u8>,
        value: Option<Seq<u8>>,
        job: NotifyJob,
    )
        requires
            before.wf(),
            before@.can_grow(),
            0 <= idx < before.items.len(),
            before.items[idx].key@ == key,
            before@.is_live(key) || value is Some,
            after.values_by_revision.wf(),
            after.values_by_revision@.start == before.values_by_revision@.start,
            after.values_by_revision@.elems.len() == before.values_by_revision@.elems.len() + 1,
            forall|i: int|
                0 <= i < before.values_by_revision@.elems.len()
                    ==> after.values_by_revision@.elems[i] == before.values_by_revision@.elems[i],
            after.values_by_revision@.elems.last()@ == before@.written(key, value),
            after.items.len() == before.items.len(),
            forall|i: int|
                0 <= i < before.items.len() && i != idx ==> after.items[i] == before.items[i],
            after.items[idx]@ == (ItemView {
                key,
                revisions: pruned(before.items[idx].revisions@, before@.earliest()).push(
                    before@.written(key, value).mod_revision,
                ),
                latest_value: before@.written(key, value),
            }),
            map_contents(after.tree_map) == map_contents(before.tree_map),
            map_contents(after.prefix_map) == map_contents(before.prefix_map),
            after.prefixes@ == before.prefixes@,
            after.watchers == before.watchers,
            after.watch_counter == before.watch_counter,
            after.wal_mode == before.wal_mode,
            after.notify_queue@ == before.notify_queue@.push(job),
            job@ == before@.job(key, value),
        ensures
            after.wf(),
            after@ == before@.after_set(key, value),
    {
        reveal(Store::wf);
        let s = before@;
        let t = after@;
        let want = s.after_set(key, value);
        before.lemma_item(idx);
        assert(keys_of(before.items@)[idx] == key);
        assert(keys_of(after.items@) =~= keys_of(before.items@));
        assert forall|k: Seq<u8>| #[trigger] t.items.contains_key(k) implies t.items[k]
            == want.items[k] by {
            let i = map_contents(before.tree_map)[k] as int;
            assert(keys_of(before.items@)[i] == k);
            if k != key {
                assert(i != idx);
            }
        }
        assert(t.items =~= want.items);
        assert(t.index =~= want.index);
        assert(t.log.elems =~= want.log.elems);
        assert(t.queue =~= want.queue);
        assert(t == want);
        lemma_set_keeps_inv(s, key, value, None);
        assert forall|j: int| 0 <= j < after.prefixes.len() implies (
        #[trigger] after.prefixes[j]).btree.wf() && links(after.prefixes[j], after.items@)
            && after.prefixes[j].btree@.len() <= after.items.len() by {
            let p = before.prefixes[j];
            assert(links(p, before.items@));
            assert forall|e: int| 0 <= e < p.btree@.len() implies (#[trigger] p.btree@[e]).1
                < after.items.len() && after.items[p.btree@[e].1 as int].key@ == p.prefix@
                + p.btree@[e].0 by {
                let slot = p.btree@[e].1 as int;
                assert(keys_of(after.items@)[slot] == keys_of(before.items@)[slot]);
            }
        }
    }

    /// The store after the first write to a key is what the model says.
    proof fn lemma_set_fresh(
        before: Store,
        after: Store,
        key: Seq<u8>,
        value: Option<Seq<u8>>,
        job: NotifyJob,
        j: int,
        pos: int,
    )
        requires
            before.wf(),
            before@.can_grow(),
            !map_contents(before.tree_map).contains_key(key),
            value is Some,
            after.values_by_revision.wf(),
            after.values_by_revision@.start == before.values_by_revision@.start,
            after.values_by_revision@.elems.len() == before.values_by_revision@.elems.len() + 1,
            forall|i: int|
                0 <= i < before.values_by_revision@.elems.len()
                    ==> after.values_by_revision@.elems[i] == before.values_by_revision@.elems[i],
            after.values_by_revision@.elems.last()@ == before@.written(key, value),
            after.items.len() == before.items.len() + 1,
            forall|i: int| 0 <= i < before.items.len() ==> after.items[i] == before.items[i],
            after.items[before.items.len() as int]@ == (ItemView {
                key,
                revisions: seq![before@.written(key, value).mod_revision],
                latest_value: before@.written(key, value),
            }),
            map_contents(after.tree_map) == map_contents(before.tree_map).insert(
                key,
                before.items.len(),
            ),
            map_contents(before.prefix_map).contains_key(prefix_of(key)) ==> {
                &&& j == map_contents(before.prefix_map)[prefix_of(key)]
                &&& map_contents(after.prefix_map) == map_contents(before.prefix_map)
                &&& after.prefixes.len() == before.prefixes.len()
                &&& after.prefixes[j].btree@ == before.prefixes[j].btree@.insert(
                    pos,
                    (suffix_of(key), before.items.len()),
                )
                &&& 0 <= pos <= before.prefixes[j].btree@.len()
                &&& forall|i: int|
                    0 <= i < pos ==> lex_lt_entry(before.prefixes[j].btree@[i], suffix_of(key))
            },
            !map_contents(before.prefix_map).contains_key(prefix_of(key)) ==> {
                &&& j == before.prefixes.len()
                &&& map_contents(after.prefix_map) == map_contents(before.prefix_map).insert(
                    prefix_of(key),
                    before.prefixes.len(),
                )
                &&& after.prefixes.len() == before.prefixes.len() + 1
                &&& after.prefixes[j].btree@ == seq![(suffix_of(key), before.items.len())]
            },
            forall|i: int|
                0 <= i < before.prefixes.len() && i != j ==> after.prefixes[i]
                    == before.prefixes[i],
            after.prefixes[j].prefix@ == prefix_of(key),
            after.prefixes[j].btree.wf(),
            after.watchers == before.watchers,
            after.watch_counter == before.watch_counter,
            after.wal_mode == before.wal_mode,
            after.notify_queue@ == before.notify_queue@.push(job),
            job@ == before@.job(key, value),
        ensures
            after.wf(),
            after@ == before@.after_set(key, value),
    {
        reveal(Store::wf);
        let s = before@;
        let t = after@;
        let want = s.after_set(key, value);
        let n = before.items.len() as int;
        let p = prefix_of(key);
        let x = suffix_of(key);
        let had = map_contents(before.prefix_map).contains_key(p);
        lemma_split_joins(key);
        // the histories
        assert(keys_of(after.items@) =~= keys_of(before.items@).push(key));
        assert forall|k: Seq<u8>| #[trigger] t.items.contains_key(k) implies t.items[k]
            == want.items[k] by {
            if k != key {
                let i = map_contents(before.tree_map)[k] as int;
                assert(keys_of(before.items@)[i] == k);
            }
        }
        assert(t.items =~= want.items);
        // the lists
        assert(prefixes_of(after.prefixes@) =~= if had {
            prefixes_of(before.prefixes@)
        } else {
            prefixes_of(before.prefixes@).push(p)
        }) by {
            if had {
                assert(prefixes_of(before.prefixes@)[j] == p);
            }
        }
        let base = if had {
            s.index[p]
        } else {
            Seq::empty()
        };
        after.prefixes[j].btree.lemma_wf();
        let entries = after.prefixes[j].btree@;
        assert(suffixes(entries) == placed(base, x)) by {
            if had {
                let old_entries = before.prefixes[j].btree@;
                assert(base == suffixes(old_entries));
                assert forall|i: int| 0 <= i < base.len() implies (is_before(x)(#[trigger] base[i])
                    <==> 0 <= i < pos) by {
                    if i < pos {
                        assert(lex_lt_entry(old_entries[i], x));
                    } else {
                        assert(entries[pos].0 == x);
                        assert(entries[i + 1] == old_entries[i]);
                        crate::lex::lemma_lex_asymmetric(entries[pos].0, entries[i + 1].0);
                    }
                }
                lemma_filter_stretch(base, is_before(x), 0, pos);
                assert(suffixes(entries) =~= base.insert(pos, x));
            } else {
                assert(base.filter(is_before(x)) =~= Seq::<Seq<u8>>::empty()) by {
                    reveal(Seq::filter);
                }
                assert(suffixes(entries) =~= base.insert(0, x));
            }
        }
        assert forall|q: Seq<u8>| #[trigger] t.index.contains_key(q) implies t.index[q]
            == want.index[q] by {
            if q != p {
                let i = map_contents(before.prefix_map)[q] as int;
                assert(prefixes_of(before.prefixes@)[i] == q);
                assert(i != j);
            }
        }
        assert(t.index =~= want.index);
        assert(t.log.elems =~= want.log.elems);
        assert(t.queue =~= want.queue);
        assert(t == want);
        lemma_set_keeps_inv(s, key, value, None);
        // the links
        assert forall|i: int| 0 <= i < after.prefixes.len() implies (
        #[trigger] after.prefixes[i]).btree.wf() && links(after.prefixes[i], after.items@)
            && after.prefixes[i].btree@.len() <= after.items.len() by {
            let a = after.prefixes[i];
            if i != j {
                assert(a == before.prefixes[i]);
                assert(links(before.prefixes[i], before.items@));
            } else {
                if had {
                    assert(links(before.prefixes[j], before.items@));
                    assert(prefixes_of(before.prefixes@)[j] == p);
                }
                assert forall|e: int| 0 <= e < a.btree@.len() implies (#[trigger] a.btree@[e]).1
                    < after.items.len() && after.items[a.btree@[e].1 as int].key@ == a.prefix@
                    + a.btree@[e].0 by {
                    if had {
                        let old_entries = before.prefixes[j].btree@;
                        if e < pos {
                            assert(a.btree@[e] == old_entries[e]);
                        } else if e > pos {
                            assert(a.btree@[e] == old_entries[e - 1]);
                        }
                    }
                }
            }
        }
    }

    /// Writes `value` to a key that has a history, at position `idx`.
    #[verifier::rlimit(60)]
    fn write_existing(&mut self, idx: usize, key: Vec<u8>, value: Option<Bytes>) -> (rev: i64)
        requires
            old(self).wf(),
            old(self)@.can_grow(),
            idx < old(self).items.len(),
            old(self).items[idx as int].key@ == key@,
            old(self)@.is_live(key@) || value is Some,
        ensures
            final(self).wf(),
            final(self)@ == old(self)@.after_set(key@, opt_bytes_view(value)),
            rev == old(self)@.latest() + 1,
    {
        let ghost vv = opt_bytes_view(value);
        proof {
            self.lemma_item(idx as int);
            self.lemma_parts();
        }
        let ghost written = old(self)@.written(key@, vv);
        let ghost chain = pruned(old(self).items[idx as int].revisions@, old(self)@.earliest());
        let live = self.items[idx].latest_value.value.is_some();
        let old_value = self.items[idx].latest_value.clone();
        // the revisions below the floor leave the chain
        let earliest_revision = self.values_by_revision.earliest_revision() as i64;
        let earliest_idx = lower_bound(&self.items[idx].revisions, earliest_revision);
        let mut revisions = self.items[idx].revisions.split_off(earliest_idx);
        assert(revisions@ =~= chain);
        // the placeholder holds the slot until the revision is known
        let placeholder_value = Value {
            create_revision: 0,
            mod_revision: 0,
            version: 1,
            value: None,
        };
        let new_rev = self.values_by_revision.push(placeholder_value) as i64 + 1;
        let new_value = if live {
            Value {
                create_revision: old_value.create_revision,
                mod_revision: new_rev,
                version: old_value.version + 1,
                value,
            }
        } else {
            Value { create_revision: new_rev, mod_revision: new_rev, version: 1, value }
        };
        assert(new_value@ == written);
        let value_for_watchers = new_value.clone();
        let logged = new_value.clone();
        self.values_by_revision.set(new_rev as usize - 1, logged);
        revisions.push(new_rev);
        self.items[idx] = TreeItem { key: key.clone(), revisions, latest_value: new_value };
        let (prefix, _) = prefix_split(&key);
        let job = self.notify_watchers(&key, value_for_watchers, Some(old_value), prefix);
        let ghost queued = job;
        self.notify_queue.push(job);
        proof {
            assert(self.items[idx as int]@ == (ItemView {
                key: key@,
                revisions: chain.push(written.mod_revision),
                latest_value: written,
            }));
            Self::lemma_set_existing(*old(self), *self, idx as int, key@, vv, queued);
        }
        new_rev
    }

    /// Writes `value` to a key that has no history yet.
    fn write_fresh(&mut self, key: Vec<u8>, value: Option<Bytes>) -> (rev: i64)
        requires
            old(self).wf(),
            old(self)@.can_grow(),
            !map_contents(old(self).tree_map).contains_key(key@),
            value is Some,
        ensures
            final(self).wf(),
            final(self)@ == old(self)@.after_set(key@, opt_bytes_view(value)),
            rev == old(self)@.latest() + 1,
    {
        let ghost vv = opt_bytes_view(value);
        proof {
            self.lemma_parts();
            self.lemma_position(key@);
        }
        let placeholder_value = Value {
            create_revision: 0,
            mod_revision: 0,
            version: 1,
            value: None,
        };
        let new_rev = self.values_by_revision.push(placeholder_value) as i64 + 1;
        let new_value = Value { create_revision: new_rev, mod_revision: new_rev, version: 1, value };
        assert(new_value@ == old(self)@.written(key@, vv));
        let value_for_watchers = new_value.clone();
        let logged = new_value.clone();
        let mut revisions: Vec<i64> = Vec::new();
        revisions.push(new_rev);
        let item = TreeItem { key: key.clone(), revisions, latest_value: new_value };
        self.values_by_revision.set(new_rev as usize - 1, logged);
        let idx = self.items.len();
        self.items.push(item);
        let (prefix, suffix) = prefix_split(&key);
        let found = map_get(&self.prefix_map, prefix);
        let j = match found {
            Some(j) => j,
            None => {
                let j = self.prefixes.len();
                self.prefixes.push(
                    PrefixMapItem {
                        prefix: vstd::slice::slice_to_vec(prefix),
                        btree: OrderedIndex::new(),
                    },
                );
                map_insert(&mut self.prefix_map, vstd::slice::slice_to_vec(prefix), j);
                j
            },
        };
        proof {
            old(self).lemma_list(key@);
        }
        let pos = self.prefixes[j].btree.insert(vstd::slice::slice_to_vec(suffix), idx);
        map_insert(&mut self.tree_map, key.clone(), idx);
        let job = self.notify_watchers(&key, value_for_watchers, None, prefix);
        let ghost queued = job;
        self.notify_queue.push(job);
        proof {
            if found is None {
                assert(self.prefixes[j as int].btree@ =~= seq![(suffix@, idx)]);
            }
            Self::lemma_set_fresh(*old(self), *self, key@, vv, queued, j as int, pos as int);
        }
        new_rev
    }

    /// The list of the prefix of a key without history does not hold the
    /// key's suffix.
    proof fn lemma_list(&self, key: Seq<u8>)
        requires
            self.wf(),
            !map_contents(self.tree_map).contains_key(key),
        ensures
            map_contents(self.prefix_map).contains_key(prefix_of(key)) ==> {
                let j = map_contents(self.prefix_map)[prefix_of(key)] as int;
                &&& 0 <= j < self.prefixes.len()
                &&& self.prefixes[j].prefix@ == prefix_of(key)
                &&& self.prefixes[j].btree.wf()
                &&& !has_key(self.prefixes[j].btree@, suffix_of(key))
            },
    {
        reveal(Store::wf);
        if map_contents(self.prefix_map).contains_key(prefix_of(key)) {
            let j = map_contents(self.prefix_map)[prefix_of(key)] as int;
            assert(prefixes_of(self.prefixes@)[j] == prefix_of(key));
            let entries = self.prefixes[j].btree@;
            assert(links(self.prefixes[j], self.items@));
            lemma_split_joins(key);
            if has_key(entries, suffix_of(key)) {
                let e = choose|e: int|
                    0 <= e < entries.len() && (#[trigger] entries[e]).0 == suffix_of(key);
                let slot = entries[e].1 as int;
                assert(keys_of(self.items@)[slot] == key);
                assert(false);
            }
        }
    }

    /// Writes `value` to `key`, or deletes `key` where `value` is `None`,
    /// if the key meets the conditions `required`.  Returns the revision of
    /// the write, or the current revision and, where the key exists, its
    /// current version.  A write that goes through queues its
    /// notification.
    pub fn set(&mut self, key: Vec<u8>, value: Option<Bytes>, required: Option<SetRequired>) -> (r:
        Result<i64, (i64, Option<KeyValue>)>)
        requires
            old(self).wf(),
            old(self)@.can_grow(),
        ensures
            final(self).wf(),
            final(self)@ == old(self)@.set(key@, opt_bytes_view(value), required).0,
            set_answer_view(r) == old(self)@.set(key@, opt_bytes_view(value), required).1,
    {
        let latest_rev = self.current_revision();
        let required_last_revision = match required {
            Some(SetRequired { required_last_revision: Some(x), .. }) => x,
            _ => -1,
        };
        let required_version = match required {
            Some(SetRequired { required_version: Some(x), .. }) => x,
            _ => -1,
        };
        proof {
            self.lemma_position(key@);
        }
        match map_get(&self.tree_map, key.as_slice()) {
            Some(idx) => {
                let live = self.items[idx].latest_value.value.is_some();
                if live {
                    if (required_last_revision >= 0 && required_last_revision
                        != self.items[idx].latest_value.mod_revision) || (required_version >= 0
                        && required_version != self.items[idx].latest_value.version) {
                        let current = as_mvcc_key_value(
                            self.items[idx].latest_value.clone(),
                            &self.items[idx].key,
                        );
                        return Err((latest_rev, Some(current)));
                    }
                } else {
                    if required_last_revision > 0 || required_version > 0 {
                        return Err((latest_rev, None));
                    }
                    if value.is_none() {
                        return Err((latest_rev, None));
                    }
                }
                Ok(self.write_existing(idx, key, value))
            },
            None => {
                if required_last_revision > 0 || required_version > 0 {
                    return Err((latest_rev, None));
                }
                if value.is_none() {
                    return Err((latest_rev, None));
                }
                Ok(self.write_fresh(key, value))
            },
        }
    }

    /// Deletes `key` if it meets the conditions `required`.
    pub fn delete(&mut self, key: Vec<u8>, required: Option<SetRequired>) -> (r: Result<
        i64,
        (i64, Option<KeyValue>),
    >)
        requires
            old(self).wf(),
            old(self)@.can_grow(),
        ensures
            final(self).wf(),
            final(self)@ == old(self)@.set(key@, None, required).0,
            set_answer_view(r) == old(self)@.set(key@, None, required).1,
    {
        self.set(key, None, required)
    }

    /// The positions `a .. b` of the list of `prefix` whose keys lie
    /// between `lo` and `hi`, with the position `j` of the list; `None`
    /// where the prefix has no list.
    fn candidates(&self, prefix: &[u8], lo: &Bound, hi: &Bound) -> (r: Option<(usize, usize, usize)>)
        requires
            self.wf(),
        ensures
            r is None ==> self@.candidates(prefix@, lo@, hi@) == Seq::<Seq<u8>>::empty(),
            r matches Some((j, a, b)) ==> {
                &&& j < self.prefixes.len()
                &&& self.prefixes[j as int].prefix@ == prefix@
                &&& a <= b <= self.prefixes[j as int].btree@.len()
                &&& b <= self.items.len()
                &&& self@.candidates(prefix@, lo@, hi@) == suffixes(
                    self.prefixes[j as int].btree@,
                ).subrange(a as int, b as int)
            },
    {
        proof {
            self.lemma_prefix(prefix@);
        }
        match map_get(&self.prefix_map, prefix) {
            Some(j) => {
                let (a, b) = self.prefixes[j].btree.range(lo, hi);
                proof {
                    let list = suffixes(self.prefixes[j as int].btree@);
                    assert forall|i: int| 0 <= i < list.len() implies (is_within(lo@, hi@)(
                        #[trigger] list[i],
                    ) <==> a <= i < b) by {
                        assert(list[i] == self.prefixes[j as int].btree@[i].0);
                    }
                    lemma_filter_stretch(list, is_within(lo@, hi@), a as int, b as int);
                }
                Some((j, a, b))
            },
            None => None,
        }
    }

    /// Reads the keys from `start` up to `end` as they were at revision
    /// `rev`, or as they are where `rev` is 0, and returns at most `limit`
    /// of them with the number of keys found.
    pub fn range(&self, start: Vec<u8>, end: Vec<u8>, rev: i64, limit: Option<usize>) -> (r: Result<
        RangeResult,
        StoreError,
    >)
        requires
            self.wf(),
            rev >= 0,
        ensures
            range_answer_view(r) == self@.range(start@, end@, rev, limit),
    {
        let limit = match limit {
            Some(l) => l,
            None => usize::MAX,
        };
        let latest_rev = self.current_revision();
        if rev > latest_rev {
            return Err(StoreError::FutureRev);
        }
        if rev > 0 && rev <= self.compacted_revision() {
            return Err(StoreError::Compacted);
        }
        let rev = if rev == 0 {
            latest_rev
        } else {
            rev
        };
        let (prefix, (lo, hi)) = match prefix_and_range_of_key(&start, &end) {
            Ok(x) => x,
            Err(e) => {
                return Err(e);
            },
        };
        let mut results: Vec<KeyValue> = Vec::new();
        let mut count: usize = 0;
        let ghost cands = self@.candidates(prefix@, lo@, hi@);
        match self.candidates(prefix, &lo, &hi) {
            Some((j, a, b)) => {
                let mut i: usize = a;
                proof {
                    self.lemma_parts();
                    assert(kvs_view(results@) =~= Seq::<crate::types::KeyValueView>::empty());
                }
                while i < b
                    invariant
                        self.wf(),
                        j < self.prefixes.len(),
                        self.prefixes[j as int].prefix@ == prefix@,
                        a <= i <= b <= self.prefixes[j as int].btree@.len(),
                        b <= self.items.len(),
                        self.items.len() <= i64::MAX,
                        cands == suffixes(self.prefixes[j as int].btree@).subrange(
                            a as int,
                            b as int,
                        ),
                        count <= i - a,
                        (i > a ==> rev > 0),
                        self.items.len() > 0 ==> rev > 0,
                        (kvs_view(results@), count as int) == self@.scan(
                            prefix@,
                            cands,
                            rev as int,
                            limit as int,
                            i - a,
                        ),
                    decreases b - i,
                {
                    proof {
                        self.lemma_entry(j as int, i as int);
                        assert(cands[i - a] == self.prefixes[j as int].btree@[i as int].0);
                    }
                    let slot = self.prefixes[j].btree.slot_at(i);
                    if count > limit {
                        // an estimate is enough once the limit is passed
                        count = count + 1;
                    } else if count == limit {
                        if self.has_value_for_revision(slot, rev) {
                            count = count + 1;
                        }
                    } else {
                        match self.find_value_for_revision(slot, rev) {
                            Some(v) => {
                                if v.value.is_some() {
                                    let kv = as_mvcc_key_value(v, &self.items[slot].key);
                                    let ghost before = results@;
                                    results.push(kv);
                                    assert(kvs_view(results@) =~= kvs_view(before).push(kv@));
                                    count = count + 1;
                                }
                            },
                            None => {},
                        }
                    }
                    i = i + 1;
                }
                Ok(RangeResult { kvs: results, latest_rev, count: count as i64 })
            },
            None => {
                assert(kvs_view(results@) =~= Seq::<crate::types::KeyValueView>::empty());
                Ok(RangeResult { kvs: results, latest_rev, count: 0 })
            },
        }
    }

    /// Appends to `out` the changes of the key at position `idx` from
    /// revision `from` on, each with the version before it where
    /// `want_prev_kv` asks for that and the log still has it.
    fn item_changes(
        &self,
        idx: usize,
        from: i64,
        want_prev_kv: bool,
        out: &mut Vec<KeyValueWithPrev>,
    )
        requires
            self.wf(),
            idx < self.items.len(),
            from > self@.earliest(),
            from > 0,
        ensures
            events_view(final(out)@) == events_view(old(out)@) + self@.item_events(
                self.items[idx as int]@,
                from as int,
                want_prev_kv,
            ),
    {
        proof {
            self.lemma_item(idx as int);
            self.lemma_parts();
        }
        let item = &self.items[idx];
        let ghost it = item@;
        let first = lower_bound(&item.revisions, from);
        let mut k: usize = if first > 0 && want_prev_kv {
            // one back, for the version before the first change
            first - 1
        } else {
            first
        };
        let mut prev_kv: Option<KeyValue> = None;
        let ghost events = self@.item_events(it, from as int, want_prev_kv);
        assert(events_view(out@) =~= events_view(old(out)@) + events.take(0));
        while k < item.revisions.len()
            invariant
                self.wf(),
                idx < self.items.len(),
                item == self.items[idx as int],
                it == item@,
                self@.item_ok(it.key),
                self@.items[it.key] == it,
                from > self@.earliest(),
                first == count_below(it.revisions, from as int),
                first <= it.revisions.len(),
                forall|i: int| 0 <= i < first ==> it.revisions[i] < from,
                forall|i: int| first <= i < it.revisions.len() ==> it.revisions[i] >= from,
                k <= it.revisions.len(),
                k >= first || k + 1 == first,
                events == self@.item_events(it, from as int, want_prev_kv),
                k < first ==> events_view(out@) == events_view(old(out)@),
                k >= first ==> events_view(out@) == events_view(old(out)@) + events.take(
                    k - first,
                ),
                k >= first ==> opt_kv_view(prev_kv) == if want_prev_kv && k > 0 && self@.retained(
                    it.revisions[k - 1] as int,
                ) {
                    Some(project(self@.value_at(it.revisions[k - 1] as int), it.key))
                } else {
                    None
                },
            decreases it.revisions.len() - k,
        {
            let item_rev = item.revisions[k];
            proof {
                self.lemma_parts();
                assert(1 <= it.revisions[k as int] <= self@.latest());
            }
            match self.values_by_revision.get(item_rev as usize - 1) {
                Ok(v) => {
                    assert(self@.retained(item_rev as int));
                    assert(v@ == self@.value_at(item_rev as int));
                    if item_rev >= from {
                        let change = KeyValueWithPrev {
                            kv: as_mvcc_key_value(v.clone(), &item.key),
                            prev_kv,
                        };
                        let ghost before = out@;
                        out.push(change);
                        proof {
                            assert(change@ == self@.event_at(it, k as int, want_prev_kv));
                            assert(events[k - first] == self@.event_at(
                                it,
                                k as int,
                                want_prev_kv,
                            ));
                            assert(events.take(k - first + 1) =~= events.take(k - first).push(
                                events[k - first],
                            ));
                            assert(events_view(out@) =~= events_view(before).push(change@));
                        }
                    }
                    prev_kv = if want_prev_kv {
                        Some(as_mvcc_key_value(v, &item.key))
                    } else {
                        None
                    };
                },
                Err(_) => {
                    assert(!self@.retained(item_rev as int));
                    prev_kv = None;
                },
            }
            k = k + 1;
        }
        assert(events.take(events.len() as int) =~= events);
    }

    /// The changes from revision `rev` on of the keys from `start` up to
    /// `end`, key by key; fails where the range spans prefixes.
    fn past_changes(&self, start: &Vec<u8>, end: &Vec<u8>, rev: i64, want_prev_kv: bool) -> (r:
        Result<Vec<KeyValueWithPrev>, StoreError>)
        requires
            self.wf(),
            rev > 0,
            rev > self@.earliest(),
        ensures
            match crate::prefix::key_range(start@, end@) {
                None => r is Err,
                Some((prefix, lo, hi)) => r is Ok && events_view(r->Ok_0@) == self@.backfill(
                    prefix,
                    self@.candidates(prefix, lo, hi),
                    rev as int,
                    want_prev_kv,
                    self@.candidates(prefix, lo, hi).len() as int,
                ),
            },
    {
        let (prefix, (lo, hi)) = match prefix_and_range_of_key(start, end) {
            Ok(x) => x,
            Err(e) => {
                return Err(e);
            },
        };
        let mut past: Vec<KeyValueWithPrev> = Vec::new();
        let ghost cands = self@.candidates(prefix@, lo@, hi@);
        assert(events_view(past@) =~= Seq::<EventView>::empty());
        match self.candidates(prefix, &lo, &hi) {
            Some((j, a, b)) => {
                let mut i: usize = a;
                while i < b
                    invariant
                        self.wf(),
                        rev > 0,
                        rev > self@.earliest(),
                        j < self.prefixes.len(),
                        self.prefixes[j as int].prefix@ == prefix@,
                        a <= i <= b <= self.prefixes[j as int].btree@.len(),
                        cands == suffixes(self.prefixes[j as int].btree@).subrange(
                            a as int,
                            b as int,
                        ),
                        events_view(past@) == self@.backfill(
                            prefix@,
                            cands,
                            rev as int,
                            want_prev_kv,
                            i - a,
                        ),
                    decreases b - i,
                {
                    proof {
                        self.lemma_entry(j as int, i as int);
                        assert(cands[i - a] == self.prefixes[j as int].btree@[i as int].0);
                    }
                    let slot = self.prefixes[j].btree.slot_at(i);
                    self.item_changes(slot, rev, want_prev_kv, &mut past);
                    i = i + 1;
                }
                Ok(past)
            },
            None => Ok(past),
        }
    }

    /// Registers a watcher of the keys from `start` up to `end` (of `start`
    /// alone where `end` is empty) and returns its id, with the changes
    /// since revision `rev` where `rev` is above 0.  Fails with the
    /// compaction floor where `rev` has been compacted away.
    pub fn watch(&mut self, start: Vec<u8>, end: Vec<u8>, rev: i64, want_prev_kv: bool) -> (r:
        Result<(Vec<KeyValueWithPrev>, i64), i64>)
        requires
            old(self).wf(),
            old(self)@.can_watch(),
        ensures
            final(self).wf(),
            final(self)@ == old(self)@.watch(start@, end@, rev),
            watch_answer_view(r) == old(self)@.watch_answer(start@, end@, rev, want_prev_kv),
    {
        let start_rev: i64 = if rev <= 0 {
            self.current_revision()
        } else {
            rev
        };
        let compact_revision = self.compacted_revision();
        if rev > 0 && rev <= compact_revision {
            return Err(compact_revision);
        }
        let past_changes = if rev > 0 {
            self.past_changes(&start, &end, rev, want_prev_kv)
        } else {
            Ok(Vec::new())
        };
        proof {
            reveal(Store::wf);
        }
        let watcher_id = self.watch_counter + 1;
        let watcher = Watcher {
            start_revision: start_rev,
            key_range_start: start,
            key_range_end: end,
        };
        self.watch_counter = watcher_id;
        let pos = self.watchers.insert(watcher_id, watcher);
        proof {
            let a = old(self)@;
            let b = self@;
            let w = a.new_watcher(start@, end@, rev);
            lemma_stands_before(a.watchers, w, pos as int);
            assert(b.items =~= a.items);
            assert(b.index =~= a.index);
            assert(b == a.watch(start@, end@, rev));
            lemma_watch_keeps_inv(a, start@, end@, rev);
        }
        match past_changes {
            Ok(past) => {
                assert(rev <= 0 ==> events_view(past@) =~= Seq::<EventView>::empty());
                Ok((past, watcher_id))
            },
            Err(_) => Err(compact_revision),
        }
    }

    /// Writes the records of a log back into the store, in order: each is
    /// a write without conditions, whose answer is not looked at.
    pub fn replay(&mut self, records: &Vec<WalRecord>)
        requires
            old(self).wf(),
            old(self)@.latest() + records.len() < i64::MAX,
            old(self)@.latest() + records.len() < usize::MAX,
        ensures
            final(self).wf(),
            final(self)@ == after_writes(old(self)@, replayed(records_view(records@))),
    {
        let ghost start = self@;
        let ghost writes = replayed(records_view(records@));
        let mut i: usize = 0;
        while i < records.len()
            invariant
                i <= records.len(),
                self.wf(),
                start.latest() + records.len() < i64::MAX,
                start.latest() + records.len() < usize::MAX,
                writes == replayed(records_view(records@)),
                self@ == after_writes(start, writes.take(i as int)),
                self@.latest() <= start.latest() + i,
            decreases records.len() - i,
        {
            let rec = &records[i];
            let value = match &rec.value {
                Some(v) => Some(crate::buffer::bytes_from_vec(v.clone())),
                None => None,
            };
            proof {
                assert(writes.take(i + 1).drop_last() =~= writes.take(i as int));
                assert(writes.take(i + 1).last() == writes[i as int]);
                lemma_write_takes_one_revision(self@, writes[i as int]);
            }
            let _ = self.set(rec.key.clone(), value, None);
            i = i + 1;
        }
        assert(writes.take(i as int) =~= writes);
    }

    /// Drops the revisions below `rev` from the log.  The chains of the
    /// keys are pruned when they are next written.
    pub fn compact(&mut self, rev: i64) -> (r: Result<(), StoreError>)
        requires
            old(self).wf(),
        ensures
            final(self).wf(),
            r == old(self)@.compact_answer(rev),
            final(self)@ == old(self)@.compact(rev),
    {
        if rev < 1 || rev > self.current_revision() {
            return Err(StoreError::Compacted);
        }
        proof {
            reveal(Store::wf);
            self.values_by_revision.lemma_bounds();
        }
        let result = self.values_by_revision.remove_before((rev - 1) as usize);
        match result {
            Ok(_) => {
                proof {
                    let a = old(self)@;
                    let b = self@;
                    assert(b.log.elems =~= a.log.elems.skip(rev - 1 - a.log.start));
                    assert(b.items =~= a.items);
                    assert(b.index =~= a.index);
                    assert(b == a.compact(rev));
                    lemma_compact_keeps_inv(a, rev);
                }
                Ok(())
            },
            Err(_) => {
                proof {
                    assert(self@.log.elems =~= old(self)@.log.elems);
                    assert(self@.items =~= old(self)@.items);
                    assert(self@.index =~= old(self)@.index);
                    assert(self@ == old(self)@);
                }
                Err(StoreError::CompactFailed)
            },
        }
    }

    /// Takes the watcher registered under `start` and `watcher_id` out of
    /// the registry.
    pub fn unwatch(&mut self, start: Vec<u8>, watcher_id: i64)
        requires
            old(self).wf(),
        ensures
            final(self).wf(),
            final(self)@ == old(self)@.unwatch(start@, watcher_id),
    {
        proof {
            reveal(Store::wf);
        }
        self.watchers.remove(start.as_slice(), watcher_id);
        proof {
            let a = old(self)@;
            let b = self@;
            assert(b.items =~= a.items);
            assert(b.index =~= a.index);
            assert(b == a.unwatch(start@, watcher_id));
            lemma_unwatch_keeps_inv(a, start@, watcher_id);
        }
    }
}

} // verus!
