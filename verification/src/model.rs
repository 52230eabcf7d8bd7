//! The mathematical model of the store: what it holds, and what each
//! operation makes of it.

use crate::block_deque::DequeView;
use crate::chain::{ascending, count_below, pruned};
use crate::lex::lex_lt;
use crate::ordered::{within, BoundView};
use crate::prefix::{key_range, prefix_len, prefix_of, suffix_of};
use crate::types::{
    project, wanted_revision, wanted_version, EventView, KeyValueView, RangeResultView,
    SetRequired, StoreError, ValueView,
};
use crate::wal::WalMode;
use crate::watchers::{in_registry_order, matched, without, WatcherView};
use vstd::prelude::*;

verus! {

/// Model of the history of one key.
pub struct ItemView {
    pub key: Seq<u8>,
    /// The revisions at which the key was written, without those that were
    /// pruned after a compaction.
    pub revisions: Seq<i64>,
    pub latest_value: ValueView,
}

/// Model of a notification that waits to be dispatched.
pub struct NotifyJobView {
    pub rev: i64,
    /// The ids of the watchers that are told.
    pub watchers: Seq<i64>,
    pub msg: EventView,
    pub prefix: Seq<u8>,
    /// The writer waits until the record has been synced.
    pub wal_sync: bool,
}

/// Model of the store.
pub struct StoreView {
    /// The values by revision: revision `r` is at index `r - 1`.
    pub log: DequeView<ValueView>,
    /// The history of every key that was ever written.
    pub items: Map<Seq<u8>, ItemView>,
    /// For each prefix, the suffixes of its keys in ascending order.
    pub index: Map<Seq<u8>, Seq<Seq<u8>>>,
    pub watchers: Seq<WatcherView>,
    /// The id given to the last watcher.
    pub watch_counter: i64,
    pub wal_mode: Option<WalMode>,
    /// The notifications that have not been taken yet, oldest first.
    pub queue: Seq<NotifyJobView>,
}

/// The test that a suffix is below `x`.
pub open spec fn is_before(x: Seq<u8>) -> spec_fn(Seq<u8>) -> bool {
    |s: Seq<u8>| lex_lt(s, x)
}

/// `list` with `suffix` put at its place in the order.
pub open spec fn placed(list: Seq<Seq<u8>>, suffix: Seq<u8>) -> Seq<Seq<u8>> {
    list.insert(list.filter(is_before(suffix)).len() as int, suffix)
}

/// The test that a suffix lies between `lo` and `hi`.
pub open spec fn is_within(lo: BoundView, hi: BoundView) -> spec_fn(Seq<u8>) -> bool {
    |s: Seq<u8>| within(s, lo, hi)
}

/// A live version is created before it is modified, and counts its
/// modifications.
pub open spec fn value_ok(v: ValueView) -> bool {
    v.mod_revision >= 1 && (v.value is Some ==> 1 <= v.create_revision <= v.mod_revision && 1
        <= v.version <= v.mod_revision - v.create_revision + 1)
}

impl StoreView {
    /// The current revision.
    pub open spec fn latest(self) -> int {
        self.log.end()
    }

    /// The compaction floor: the revisions up to it are gone.
    pub open spec fn earliest(self) -> int {
        self.log.start
    }

    /// Revision `r` can still be read from the log.
    pub open spec fn retained(self, r: int) -> bool {
        self.log.contains_index(r - 1)
    }

    /// The value written at revision `r`.
    pub open spec fn value_at(self, r: int) -> ValueView {
        self.log.at(r - 1)
    }

    /// `key` exists: it was written and not deleted since.
    pub open spec fn is_live(self, key: Seq<u8>) -> bool {
        self.items.contains_key(key) && self.items[key].latest_value.value is Some
    }

    /// The history of `key` agrees with the log.
    pub open spec fn item_ok(self, key: Seq<u8>) -> bool {
        let it = self.items[key];
        &&& it.key == key
        &&& it.revisions.len() >= 1
        &&& ascending(it.revisions)
        &&& forall|i: int| 0 <= i < it.revisions.len() ==> 1 <= #[trigger] it.revisions[i]
            <= self.latest()
        &&& it.revisions.last() == it.latest_value.mod_revision
        &&& value_ok(it.latest_value)
        &&& forall|i: int|
            0 <= i < it.revisions.len() && self.retained(#[trigger] it.revisions[i] as int)
                ==> self.value_at(it.revisions[i] as int).mod_revision == it.revisions[i]
        &&& self.retained(it.latest_value.mod_revision as int) ==> self.value_at(
            it.latest_value.mod_revision as int,
        ) == it.latest_value
    }

    /// The list of the prefix `p` is in order and names keys of `p`.
    pub open spec fn list_ok(self, p: Seq<u8>) -> bool {
        let list = self.index[p];
        &&& forall|i: int, j: int|
            0 <= i < j < list.len() ==> lex_lt(#[trigger] list[i], #[trigger] list[j])
        &&& forall|i: int|
            0 <= i < list.len() ==> self.items.contains_key(p + #[trigger] list[i]) && prefix_len(
                p + list[i],
            ) == p.len()
    }

    /// What holds of every state of the store.
    pub open spec fn inv(self) -> bool {
        &&& 0 <= self.log.start
        &&& self.log.end() <= i64::MAX
        &&& forall|k: Seq<u8>| #[trigger] self.items.contains_key(k) ==> self.item_ok(k)
        &&& forall|p: Seq<u8>| #[trigger] self.index.contains_key(p) ==> self.list_ok(p)
        &&& forall|k: Seq<u8>| #[trigger]
            self.items.contains_key(k) ==> self.index.contains_key(prefix_of(k))
                && self.index[prefix_of(k)].contains(suffix_of(k))
        &&& in_registry_order(self.watchers)
        &&& 0 <= self.watch_counter
        &&& forall|i: int|
            0 <= i < self.watchers.len() ==> 1 <= (#[trigger] self.watchers[i]).id
                <= self.watch_counter
    }

    /// There is a revision left for one more write.
    pub open spec fn has_room(self) -> bool {
        self.latest() < i64::MAX
    }

    /// One more write fits the machine's integers.
    pub open spec fn can_grow(self) -> bool {
        self.has_room() && self.latest() < usize::MAX
    }

    /// One more watcher id fits the machine's integers.
    pub open spec fn can_watch(self) -> bool {
        self.watch_counter < i64::MAX
    }

    // ----- reads at a revision -----
    /// The version of a key that a read at revision `rev` sees: the latest
    /// one where it is not newer than `rev`, else the one written at the
    /// last revision of the chain that is not above `rev`, where the log
    /// still has it.
    pub open spec fn resolve(self, item: ItemView, rev: int) -> Option<ValueView> {
        if rev >= item.latest_value.mod_revision {
            Some(item.latest_value)
        } else {
            let n = count_below(item.revisions, rev + 1);
            if n == 0 {
                None
            } else {
                self.log.lookup(item.revisions[n - 1] - 1)
            }
        }
    }

    /// A read at revision `rev` sees `item` as existing.
    pub open spec fn live_at(self, item: ItemView, rev: int) -> bool {
        self.resolve(item, rev) matches Some(v) && v.value is Some
    }

    /// The suffixes of the keys of `prefix` that lie between `lo` and `hi`,
    /// in ascending order.
    pub open spec fn candidates(self, prefix: Seq<u8>, lo: BoundView, hi: BoundView) -> Seq<
        Seq<u8>,
    > {
        if self.index.contains_key(prefix) {
            self.index[prefix].filter(is_within(lo, hi))
        } else {
            Seq::empty()
        }
    }

    /// What a range read has collected and counted after the first `n`
    /// candidates.  Below the limit every live key is collected and
    /// counted; the first live key beyond the limit is only counted; after
    /// that every key is counted, live or not.
    pub open spec fn scan(
        self,
        prefix: Seq<u8>,
        cands: Seq<Seq<u8>>,
        rev: int,
        limit: int,
        n: int,
    ) -> (Seq<KeyValueView>, int)
        decreases n,
    {
        if n <= 0 {
            (Seq::empty(), 0)
        } else {
            let (kvs, count) = self.scan(prefix, cands, rev, limit, n - 1);
            let item = self.items[prefix + cands[n - 1]];
            if count > limit {
                (kvs, count + 1)
            } else if self.live_at(item, rev) {
                if count < limit {
                    (kvs.push(project(self.resolve(item, rev).unwrap(), item.key)), count + 1)
                } else {
                    (kvs, count + 1)
                }
            } else {
                (kvs, count)
            }
        }
    }

    /// The answer to a range read of the keys from `start` up to `end` at
    /// revision `rev` (0 for the current one), with at most `limit` keys.
    pub open spec fn range(
        self,
        start: Seq<u8>,
        end: Seq<u8>,
        rev: i64,
        limit: Option<usize>,
    ) -> Result<RangeResultView, StoreError> {
        let cap = match limit {
            Some(l) => l as int,
            None => usize::MAX as int,
        };
        if rev > self.latest() {
            Err(StoreError::FutureRev)
        } else if rev > 0 && rev <= self.earliest() {
            Err(StoreError::Compacted)
        } else {
            let at = if rev == 0 {
                self.latest()
            } else {
                rev as int
            };
            match key_range(start, end) {
                None => Err(StoreError::PrefixMismatch),
                Some((prefix, lo, hi)) => {
                    let cands = self.candidates(prefix, lo, hi);
                    let (kvs, count) = self.scan(prefix, cands, at, cap, cands.len() as int);
                    Ok(
                        RangeResultView {
                            kvs,
                            latest_rev: self.latest() as i64,
                            count: count as i64,
                        },
                    )
                },
            }
        }
    }

    // ----- writes -----
    /// Why a write of `value` to `key` under the conditions `required` is
    /// refused, with the current revision and, where the key exists, its
    /// current version; `None` where the write goes through.
    ///
    /// A key that exists must meet each condition that is set.  A key that
    /// does not exist meets only the conditions 0, and cannot be deleted.
    pub open spec fn set_refusal(
        self,
        key: Seq<u8>,
        value: Option<Seq<u8>>,
        required: Option<SetRequired>,
    ) -> Option<(i64, Option<KeyValueView>)> {
        let rl = wanted_revision(required);
        let rv = wanted_version(required);
        if self.is_live(key) {
            let lv = self.items[key].latest_value;
            if (rl >= 0 && rl != lv.mod_revision) || (rv >= 0 && rv != lv.version) {
                Some((self.latest() as i64, Some(project(lv, key))))
            } else {
                None
            }
        } else {
            if rl > 0 || rv > 0 || value is None {
                Some((self.latest() as i64, None))
            } else {
                None
            }
        }
    }

    /// The version that a write of `value` to `key` creates.
    pub open spec fn written(self, key: Seq<u8>, value: Option<Seq<u8>>) -> ValueView {
        let rev = (self.latest() + 1) as i64;
        if self.is_live(key) {
            let lv = self.items[key].latest_value;
            ValueView {
                create_revision: lv.create_revision,
                mod_revision: rev,
                version: (lv.version + 1) as i64,
                value,
            }
        } else {
            ValueView { create_revision: rev, mod_revision: rev, version: 1, value }
        }
    }

    /// The notification of a write of `value` to `key`.
    pub open spec fn job(self, key: Seq<u8>, value: Option<Seq<u8>>) -> NotifyJobView {
        let nv = self.written(key, value);
        NotifyJobView {
            rev: nv.mod_revision,
            watchers: matched(self.watchers, key, nv.mod_revision),
            msg: EventView {
                kv: project(nv, key),
                prev_kv: if self.items.contains_key(key) {
                    Some(project(self.items[key].latest_value, key))
                } else {
                    None
                },
            },
            prefix: prefix_of(key),
            wal_sync: self.wal_mode == Some(WalMode::Sync),
        }
    }

    /// The store after a write of `value` to `key` that goes through.
    pub open spec fn after_set(self, key: Seq<u8>, value: Option<Seq<u8>>) -> StoreView {
        let nv = self.written(key, value);
        let p = prefix_of(key);
        StoreView {
            log: DequeView { start: self.log.start, elems: self.log.elems.push(nv) },
            items: self.items.insert(
                key,
                ItemView {
                    key,
                    revisions: if self.items.contains_key(key) {
                        pruned(self.items[key].revisions, self.earliest()).push(nv.mod_revision)
                    } else {
                        seq![nv.mod_revision]
                    },
                    latest_value: nv,
                },
            ),
            index: if self.items.contains_key(key) {
                self.index
            } else {
                self.index.insert(
                    p,
                    placed(
                        if self.index.contains_key(p) {
                            self.index[p]
                        } else {
                            Seq::empty()
                        },
                        suffix_of(key),
                    ),
                )
            },
            queue: self.queue.push(self.job(key, value)),
            ..self
        }
    }

    /// The store after a write or a deletion (`value == None`) of `key`
    /// under the conditions `required`, and the answer: the new revision,
    /// or why the write was refused.
    pub open spec fn set(
        self,
        key: Seq<u8>,
        value: Option<Seq<u8>>,
        required: Option<SetRequired>,
    ) -> (StoreView, Result<i64, (i64, Option<KeyValueView>)>) {
        match self.set_refusal(key, value, required) {
            Some(e) => (self, Err(e)),
            None => (self.after_set(key, value), Ok((self.latest() + 1) as i64)),
        }
    }

    // ----- compaction -----
    /// The answer to a compaction at revision `rev`: it must lie between 1
    /// and the current revision, and not below the floor.
    pub open spec fn compact_answer(self, rev: i64) -> Result<(), StoreError> {
        if rev < 1 || rev > self.latest() {
            Err(StoreError::Compacted)
        } else if rev - 1 < self.earliest() {
            Err(StoreError::CompactFailed)
        } else {
            Ok(())
        }
    }

    /// The store after a compaction at revision `rev`: the revisions below
    /// `rev` leave the log.
    pub open spec fn compact(self, rev: i64) -> StoreView {
        if self.compact_answer(rev) is Ok {
            StoreView {
                log: DequeView {
                    start: rev - 1,
                    elems: self.log.elems.skip(rev - 1 - self.log.start),
                },
                ..self
            }
        } else {
            self
        }
    }

    // ----- watches -----
    /// The change of `item` at position `i` of its chain, with the version
    /// before it where that is asked for and still in the log.
    pub open spec fn event_at(self, item: ItemView, i: int, want_prev: bool) -> EventView {
        EventView {
            kv: project(self.value_at(item.revisions[i] as int), item.key),
            prev_kv: if want_prev && i > 0 && self.retained(item.revisions[i - 1] as int) {
                Some(project(self.value_at(item.revisions[i - 1] as int), item.key))
            } else {
                None
            },
        }
    }

    /// The changes of `item` from revision `from` on, oldest first.
    pub open spec fn item_events(self, item: ItemView, from: int, want_prev: bool) -> Seq<
        EventView,
    > {
        let first = count_below(item.revisions, from);
        Seq::new(
            (item.revisions.len() - first) as nat,
            |j: int| self.event_at(item, first + j, want_prev),
        )
    }

    /// The changes from revision `from` on of the first `n` candidates, key
    /// by key.
    pub open spec fn backfill(
        self,
        prefix: Seq<u8>,
        cands: Seq<Seq<u8>>,
        from: int,
        want_prev: bool,
        n: int,
    ) -> Seq<EventView>
        decreases n,
    {
        if n <= 0 {
            Seq::empty()
        } else {
            self.backfill(prefix, cands, from, want_prev, n - 1) + self.item_events(
                self.items[prefix + cands[n - 1]],
                from,
                want_prev,
            )
        }
    }

    /// The watcher that `watch` registers.
    pub open spec fn new_watcher(self, start: Seq<u8>, end: Seq<u8>, rev: i64) -> WatcherView {
        WatcherView {
            id: (self.watch_counter + 1) as i64,
            start_revision: if rev <= 0 {
                self.latest() as i64
            } else {
                rev
            },
            key_range_start: start,
            key_range_end: end,
        }
    }

    /// A watch from revision `rev` is refused: that revision is gone.
    pub open spec fn watch_refused(self, rev: i64) -> bool {
        rev > 0 && rev <= self.earliest()
    }

    /// The watchers after a watch of the keys from `start` up to `end`: the
    /// new one stands behind those with the same start.
    pub open spec fn watchers_after_watch(self, start: Seq<u8>, end: Seq<u8>, rev: i64) -> Seq<
        WatcherView,
    > {
        if self.watch_refused(rev) {
            self.watchers
        } else {
            let w = self.new_watcher(start, end, rev);
            self.watchers.insert(
                self.watchers.filter(stands_before(w)).len() as int,
                w,
            )
        }
    }

    /// The answer to a watch of the keys from `start` up to `end` from
    /// revision `rev` on: the past changes and the id of the watcher, or
    /// the compaction floor where the watch is refused or the range spans
    /// prefixes.  Without a revision (`rev <= 0`) there are no past changes.
    pub open spec fn watch_answer(
        self,
        start: Seq<u8>,
        end: Seq<u8>,
        rev: i64,
        want_prev: bool,
    ) -> Result<(Seq<EventView>, i64), i64> {
        if self.watch_refused(rev) {
            Err(self.earliest() as i64)
        } else if rev <= 0 {
            Ok((Seq::empty(), (self.watch_counter + 1) as i64))
        } else {
            match key_range(start, end) {
                None => Err(self.earliest() as i64),
                Some((prefix, lo, hi)) => {
                    let cands = self.candidates(prefix, lo, hi);
                    Ok(
                        (
                            self.backfill(prefix, cands, rev as int, want_prev, cands.len() as int),
                            (self.watch_counter + 1) as i64,
                        ),
                    )
                },
            }
        }
    }

    /// The store after a watch.
    pub open spec fn watch(self, start: Seq<u8>, end: Seq<u8>, rev: i64) -> StoreView {
        if self.watch_refused(rev) {
            self
        } else {
            StoreView {
                watchers: self.watchers_after_watch(start, end, rev),
                watch_counter: (self.watch_counter + 1) as i64,
                ..self
            }
        }
    }

    /// The store after the watcher registered under `start` and `id` has
    /// been taken out.
    pub open spec fn unwatch(self, start: Seq<u8>, id: i64) -> StoreView {
        StoreView { watchers: without(self.watchers, start, id), ..self }
    }
}

/// The test that a watcher stands before `w` in the registry, or shares its
/// start.
pub open spec fn stands_before(w: WatcherView) -> spec_fn(WatcherView) -> bool {
    |x: WatcherView| !lex_lt(w.key_range_start, x.key_range_start)
}

} // verus!
