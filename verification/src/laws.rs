//! Laws of the store's model: what follows, for every state and every
//! input, from what each operation makes of the store.

use crate::chain::{count_below, lemma_count_below_splits};
use crate::model::{value_ok, StoreView};
use crate::soundness::lemma_set_keeps_inv;
use crate::types::{KeyValueView, SetRequired, StoreError};
use vstd::prelude::*;

verus! {

/// One write: a put of `value`, or a deletion where `value` is `None`,
/// under the conditions `required`.
pub struct Write {
    pub key: Seq<u8>,
    pub value: Option<Seq<u8>>,
    pub required: Option<SetRequired>,
}

/// The store after the writes `ws`, in order.
pub open spec fn after_writes(s: StoreView, ws: Seq<Write>) -> StoreView
    decreases ws.len(),
{
    if ws.len() == 0 {
        s
    } else {
        let w = ws.last();
        after_writes(s, ws.drop_last()).set(w.key, w.value, w.required).0
    }
}

/// The write `w` goes through in the state `s`.
pub open spec fn goes_through(s: StoreView, w: Write) -> bool {
    s.set(w.key, w.value, w.required).1 is Ok
}

/// The number of the writes `ws` that go through.
pub open spec fn successes(s: StoreView, ws: Seq<Write>) -> nat
    decreases ws.len(),
{
    if ws.len() == 0 {
        0
    } else if goes_through(after_writes(s, ws.drop_last()), ws.last()) {
        successes(s, ws.drop_last()) + 1
    } else {
        successes(s, ws.drop_last())
    }
}

/// The number of the writes `ws` to `key` that go through.
pub open spec fn successes_on(s: StoreView, ws: Seq<Write>, key: Seq<u8>) -> nat
    decreases ws.len(),
{
    if ws.len() == 0 {
        0
    } else if ws.last().key == key && goes_through(after_writes(s, ws.drop_last()), ws.last()) {
        successes_on(s, ws.drop_last(), key) + 1
    } else {
        successes_on(s, ws.drop_last(), key)
    }
}

/// A write that goes through is answered with the next revision, which
/// becomes the current one; a write that is refused changes nothing.
pub proof fn lemma_write_takes_one_revision(s: StoreView, w: Write)
    ensures
        goes_through(s, w) ==> s.set(w.key, w.value, w.required).0.latest() == s.latest() + 1,
        goes_through(s, w) ==> s.set(w.key, w.value, w.required).1 == Ok::<
            i64,
            (i64, Option<KeyValueView>),
        >((s.latest() + 1) as i64),
        !goes_through(s, w) ==> s.set(w.key, w.value, w.required).0 == s,
{
}

/// After any sequence of writes the current revision has grown by the
/// number of writes that went through.  A new store has revision 0: once
/// the bootstrap write has taken revision 1, the current revision is one
/// more than the number of the clients' writes that went through.
pub proof fn lemma_revision_counts_writes(s: StoreView, ws: Seq<Write>)
    ensures
        after_writes(s, ws).latest() == s.latest() + successes(s, ws),
        after_writes(s, ws).earliest() == s.earliest(),
    decreases ws.len(),
{
    if ws.len() > 0 {
        lemma_revision_counts_writes(s, ws.drop_last());
        lemma_write_takes_one_revision(after_writes(s, ws.drop_last()), ws.last());
    }
}

/// Compaction, watching and unwatching leave the current revision as it
/// is.
pub proof fn lemma_revision_kept_by_other_operations(
    s: StoreView,
    rev: i64,
    start: Seq<u8>,
    end: Seq<u8>,
    id: i64,
)
    ensures
        s.compact(rev).latest() == s.latest(),
        s.watch(start, end, rev).latest() == s.latest(),
        s.unwatch(start, id).latest() == s.latest(),
{
}

/// Writes keep what holds of every state, as long as the revisions do not
/// run out.
pub proof fn lemma_writes_keep_inv(s: StoreView, ws: Seq<Write>)
    requires
        s.inv(),
        after_writes(s, ws).latest() <= i64::MAX,
    ensures
        after_writes(s, ws).inv(),
    decreases ws.len(),
{
    if ws.len() > 0 {
        let front = ws.drop_last();
        let w = ws.last();
        lemma_write_takes_one_revision(after_writes(s, front), w);
        lemma_writes_keep_inv(s, front);
        lemma_set_keeps_inv(after_writes(s, front), w.key, w.value, w.required);
    }
}

/// The first write to a key, or the first after its deletion, creates it
/// at the revision of the write, with version 1.
pub proof fn lemma_creation(s: StoreView, w: Write)
    requires
        s.inv(),
        s.has_room(),
        !s.is_live(w.key),
        goes_through(s, w),
    ensures
        s.set(w.key, w.value, w.required).0.is_live(w.key),
        s.set(w.key, w.value, w.required).0.items[w.key].latest_value.create_revision
            == s.latest() + 1,
        s.set(w.key, w.value, w.required).0.items[w.key].latest_value.mod_revision == s.latest()
            + 1,
        s.set(w.key, w.value, w.required).0.items[w.key].latest_value.version == 1,
{
}

/// As long as a key is not deleted, its create revision stays what it is,
/// and its version grows by one with every write to it that goes through:
/// the version is the number of modifications since the key was created.
pub proof fn lemma_version_counts_modifications(s: StoreView, ws: Seq<Write>, key: Seq<u8>)
    requires
        s.inv(),
        s.is_live(key),
        after_writes(s, ws).latest() <= i64::MAX,
        forall|i: int| 0 <= i < ws.len() && ws[i].key == key ==> (#[trigger] ws[i]).value is Some,
    ensures
        after_writes(s, ws).is_live(key),
        after_writes(s, ws).items[key].latest_value.create_revision
            == s.items[key].latest_value.create_revision,
        after_writes(s, ws).items[key].latest_value.version == s.items[key].latest_value.version
            + successes_on(s, ws, key),
    decreases ws.len(),
{
    if ws.len() > 0 {
        let front = ws.drop_last();
        let w = ws.last();
        let mid = after_writes(s, front);
        lemma_write_takes_one_revision(mid, w);
        assert forall|i: int| 0 <= i < front.len() && front[i].key == key implies (
        #[trigger] front[i]).value is Some by {
            assert(front[i] == ws[i]);
        }
        lemma_version_counts_modifications(s, front, key);
        lemma_writes_keep_inv(s, front);
        if goes_through(mid, w) && w.key == key {
            assert(mid.item_ok(key));
            assert(value_ok(mid.items[key].latest_value));
        }
    }
}

/// After a compaction at revision `rev`, every read at a revision from 1
/// to `rev - 1` fails as compacted, while a read at the current revision
/// returns what it returned before.
pub proof fn lemma_compaction_hides_history(
    s: StoreView,
    rev: i64,
    start: Seq<u8>,
    end: Seq<u8>,
    limit: Option<usize>,
)
    requires
        s.inv(),
        s.compact_answer(rev) is Ok,
    ensures
        forall|r: i64|
            0 < r <= rev - 1 ==> #[trigger] s.compact(rev).range(start, end, r, limit) == Err::<
                crate::types::RangeResultView,
                StoreError,
            >(StoreError::Compacted),
        s.compact(rev).range(start, end, 0, limit) == s.range(start, end, 0, limit),
{
    let t = s.compact(rev);
    match crate::prefix::key_range(start, end) {
        None => {},
        Some((prefix, lo, hi)) => {
            let cands = s.candidates(prefix, lo, hi);
            let cap = match limit {
                Some(l) => l as int,
                None => usize::MAX as int,
            };
            lemma_candidates_have_histories(s, prefix, lo, hi);
            lemma_scan_at_latest(s, t, prefix, cands, cap, cands.len() as int);
        },
    }
}

/// The versions, as clients see them, of the keys among the first `n`
/// candidates that a read at revision `rev` sees as existing, in the order
/// of the candidates.
pub open spec fn live_kvs(
    s: StoreView,
    prefix: Seq<u8>,
    cands: Seq<Seq<u8>>,
    rev: int,
    n: int,
) -> Seq<KeyValueView>
    decreases n,
{
    if n <= 0 {
        Seq::empty()
    } else {
        let item = s.items[prefix + cands[n - 1]];
        if s.live_at(item, rev) {
            live_kvs(s, prefix, cands, rev, n - 1).push(
                crate::types::project(s.resolve(item, rev).unwrap(), item.key),
            )
        } else {
            live_kvs(s, prefix, cands, rev, n - 1)
        }
    }
}

/// What a range read returns and counts: of the keys that exist at the
/// revision it returns the first `limit`, in the order of the candidates;
/// as long as no more than `limit` exist, its count is their number; and
/// its count is above `limit` exactly if more than `limit` exist, which is
/// when there is more to read.
pub proof fn lemma_range_returns_first_live(
    s: StoreView,
    prefix: Seq<u8>,
    cands: Seq<Seq<u8>>,
    rev: int,
    limit: int,
    n: int,
)
    requires
        0 <= limit,
        0 <= n <= cands.len(),
    ensures
        ({
            let live = live_kvs(s, prefix, cands, rev, n);
            let (kvs, count) = s.scan(prefix, cands, rev, limit, n);
            &&& kvs == if live.len() <= limit {
                live
            } else {
                live.take(limit)
            }
            &&& count <= limit ==> count == live.len()
            &&& count > limit <==> live.len() > limit
            &&& 0 <= count <= n
        }),
    decreases n,
{
    if n > 0 {
        lemma_range_returns_first_live(s, prefix, cands, rev, limit, n - 1);
        let before = live_kvs(s, prefix, cands, rev, n - 1);
        let live = live_kvs(s, prefix, cands, rev, n);
        let (kvs, count) = s.scan(prefix, cands, rev, limit, n - 1);
        let item = s.items[prefix + cands[n - 1]];
        if s.live_at(item, rev) && count >= limit {
            assert(live.take(limit) =~= before.take(limit));
        }
    }
}

/// The candidates of a range are keys of the prefix that lie between the
/// ends of the range, each once, in ascending order.
pub proof fn lemma_candidates_in_order(
    s: StoreView,
    prefix: Seq<u8>,
    lo: crate::ordered::BoundView,
    hi: crate::ordered::BoundView,
)
    requires
        s.inv(),
    ensures
        forall|i: int|
            0 <= i < s.candidates(prefix, lo, hi).len() ==> crate::ordered::within(
                #[trigger] s.candidates(prefix, lo, hi)[i],
                lo,
                hi,
            ),
        forall|i: int, j: int|
            0 <= i < j < s.candidates(prefix, lo, hi).len() ==> crate::lex::lex_lt(
                #[trigger] s.candidates(prefix, lo, hi)[i],
                #[trigger] s.candidates(prefix, lo, hi)[j],
            ),
{
    if s.index.contains_key(prefix) {
        assert(s.list_ok(prefix));
        let list = s.index[prefix];
        let keep = crate::model::is_within(lo, hi);
        lemma_filter_ascends(list, keep);
        assert forall|i: int| 0 <= i < list.filter(keep).len() implies crate::ordered::within(
            #[trigger] list.filter(keep)[i],
            lo,
            hi,
        ) by {
            list.lemma_filter_pred(keep, i);
        }
    }
}

/// What is left of a list in ascending order is in ascending order.
proof fn lemma_filter_ascends(list: Seq<Seq<u8>>, keep: spec_fn(Seq<u8>) -> bool)
    requires
        crate::soundness::in_order(list),
    ensures
        crate::soundness::in_order(list.filter(keep)),
    decreases list.len(),
{
    reveal(Seq::filter);
    if list.len() > 0 {
        let front = list.drop_last();
        assert forall|i: int, j: int| 0 <= i < j < front.len() implies crate::lex::lex_lt(
            #[trigger] front[i],
            #[trigger] front[j],
        ) by {
            assert(front[i] == list[i] && front[j] == list[j]);
        }
        lemma_filter_ascends(front, keep);
        let out = list.filter(keep);
        let sub = front.filter(keep);
        assert forall|i: int, j: int| 0 <= i < j < out.len() implies crate::lex::lex_lt(
            #[trigger] out[i],
            #[trigger] out[j],
        ) by {
            if j < sub.len() {
                assert(out[i] == sub[i] && out[j] == sub[j]);
            } else {
                assert(out[i] == sub[i]);
                assert(sub.contains(sub[i]));
                front.lemma_filter_contains_rev(keep, sub[i]);
                let a = choose|a: int| 0 <= a < front.len() && front[a] == sub[i];
                assert(front[a] == list[a]);
                assert(crate::lex::lex_lt(list[a], list[list.len() - 1]));
            }
        }
    }
}

/// The past changes that a watch from revision `from` on reports of one
/// key, with the versions before them: they are the key's writes from
/// `from` on in the order of their revisions, and each carries, as the
/// version before it, the write that went immediately before it in the
/// key's chain, whether that lies before `from` or not, as long as the log
/// still holds it.
pub proof fn lemma_past_changes_of_key(s: StoreView, key: Seq<u8>, from: i64)
    requires
        s.inv(),
        s.items.contains_key(key),
        from > 0,
        from > s.earliest(),
    ensures
        ({
            let item = s.items[key];
            let first = count_below(item.revisions, from as int);
            let events = s.item_events(item, from as int, true);
            &&& 0 <= first <= item.revisions.len()
            &&& events.len() == item.revisions.len() - first
            &&& forall|i: int|
                0 <= i < events.len() ==> {
                    &&& (#[trigger] events[i]).kv.key == key
                    &&& events[i].kv.mod_revision == item.revisions[first + i]
                    &&& events[i].kv.mod_revision >= from
                    &&& (i > 0 ==> events[i - 1].kv.mod_revision < events[i].kv.mod_revision)
                    &&& (events[i].prev_kv is Some <==> first + i > 0 && s.retained(
                        item.revisions[first + i - 1] as int,
                    ))
                    &&& (events[i].prev_kv matches Some(p) ==> p.key == key && p.mod_revision
                        == item.revisions[first + i - 1] && p.mod_revision
                        < events[i].kv.mod_revision)
                    &&& (i > 0 ==> (events[i].prev_kv matches Some(p) && p.mod_revision
                        == events[i - 1].kv.mod_revision))
                }
        }),
{
    let item = s.items[key];
    assert(s.item_ok(key));
    lemma_count_below_splits(item.revisions, from as int);
    let first = count_below(item.revisions, from as int);
    let events = s.item_events(item, from as int, true);
    assert forall|i: int| 0 <= i < events.len() implies {
        &&& (#[trigger] events[i]).kv.key == key
        &&& events[i].kv.mod_revision == item.revisions[first + i]
        &&& events[i].kv.mod_revision >= from
        &&& (i > 0 ==> events[i - 1].kv.mod_revision < events[i].kv.mod_revision)
        &&& (events[i].prev_kv is Some <==> first + i > 0 && s.retained(
            item.revisions[first + i - 1] as int,
        ))
        &&& (events[i].prev_kv matches Some(p) ==> p.key == key && p.mod_revision
            == item.revisions[first + i - 1] && p.mod_revision < events[i].kv.mod_revision)
        &&& (i > 0 ==> (events[i].prev_kv matches Some(p) && p.mod_revision == events[i
            - 1].kv.mod_revision))
    } by {
        let k = first + i;
        assert(events[i] == s.event_at(item, k, true));
        assert(1 <= item.revisions[k] <= s.latest());
        assert(s.retained(item.revisions[k] as int));
        if k > 0 {
            assert(item.revisions[k - 1] < item.revisions[k]);
            assert(1 <= item.revisions[k - 1] <= s.latest());
        }
        if i > 0 {
            assert(events[i - 1] == s.event_at(item, k - 1, true));
            assert(s.retained(item.revisions[k - 1] as int));
        }
    }
}

/// Every candidate of a range is a key with a history.
pub proof fn lemma_candidates_have_histories(
    s: StoreView,
    prefix: Seq<u8>,
    lo: crate::ordered::BoundView,
    hi: crate::ordered::BoundView,
)
    requires
        s.inv(),
    ensures
        forall|i: int|
            0 <= i < s.candidates(prefix, lo, hi).len() ==> s.items.contains_key(
                prefix + #[trigger] s.candidates(prefix, lo, hi)[i],
            ),
{
    let cands = s.candidates(prefix, lo, hi);
    assert forall|i: int| 0 <= i < cands.len() implies s.items.contains_key(
        prefix + #[trigger] cands[i],
    ) by {
        let list = s.index[prefix];
        assert(s.list_ok(prefix));
        assert(cands.contains(cands[i]));
        list.lemma_filter_contains_rev(crate::model::is_within(lo, hi), cands[i]);
        let j = choose|j: int| 0 <= j < list.len() && list[j] == cands[i];
        assert(s.items.contains_key(prefix + list[j]));
    }
}

/// A read at the current revision sees the latest version of every key,
/// whatever the log still holds.
proof fn lemma_scan_at_latest(
    s: StoreView,
    t: StoreView,
    prefix: Seq<u8>,
    cands: Seq<Seq<u8>>,
    cap: int,
    n: int,
)
    requires
        s.inv(),
        t.items == s.items,
        t.latest() == s.latest(),
        0 <= n <= cands.len(),
        forall|i: int| 0 <= i < cands.len() ==> s.items.contains_key(prefix + #[trigger] cands[i]),
    ensures
        t.scan(prefix, cands, t.latest(), cap, n) == s.scan(prefix, cands, s.latest(), cap, n),
    decreases n,
{
    if n > 0 {
        lemma_scan_at_latest(s, t, prefix, cands, cap, n - 1);
        let key = prefix + cands[n - 1];
        assert(s.items.contains_key(key));
        assert(s.item_ok(key));
        let it = s.items[key];
        assert(1 <= it.revisions[it.revisions.len() - 1] <= s.latest());
    }
}

} // verus!
