//! What holds of every state of the store is kept by every operation.

use crate::chain::{count_below, lemma_count_below_bounds, pruned};
use crate::lex::{lemma_lex_total, lemma_lex_transitive, lex_lt};
use crate::model::{is_before, placed, StoreView};
use crate::ordered::lemma_filter_stretch;
use crate::prefix::{lemma_split_joins, prefix_len, prefix_of, suffix_of};
use crate::types::SetRequired;
use crate::watchers::{in_registry_order, other_than, registered_before, WatcherView};
use vstd::prelude::*;

verus! {

/// Each suffix is below the next.
pub open spec fn in_order(list: Seq<Seq<u8>>) -> bool {
    forall|i: int, j: int| 0 <= i < j < list.len() ==> lex_lt(#[trigger] list[i], #[trigger] list[j])
}

/// In a list in order, the suffixes below `x` are the first ones, as many
/// as there are.
pub proof fn lemma_rank_splits(list: Seq<Seq<u8>>, x: Seq<u8>)
    requires
        in_order(list),
    ensures
        0 <= list.filter(is_before(x)).len() <= list.len(),
        forall|i: int| 0 <= i < list.filter(is_before(x)).len() ==> lex_lt(#[trigger] list[i], x),
        forall|i: int|
            list.filter(is_before(x)).len() <= i < list.len() ==> !lex_lt(#[trigger] list[i], x),
    decreases list.len(),
{
    reveal(Seq::filter);
    if list.len() > 0 {
        let front = list.drop_last();
        let n = list.len() - 1;
        assert forall|i: int, j: int| 0 <= i < j < front.len() implies lex_lt(
            #[trigger] front[i],
            #[trigger] front[j],
        ) by {
            assert(front[i] == list[i] && front[j] == list[j]);
        }
        lemma_rank_splits(front, x);
        let r = front.filter(is_before(x)).len() as int;
        if lex_lt(list[n], x) {
            assert forall|i: int| 0 <= i < list.len() implies (is_before(x)(#[trigger] list[i])
                <==> 0 <= i < list.len()) by {
                if i < n {
                    lemma_lex_transitive(list[i], list[n], x);
                }
            }
            lemma_filter_stretch(list, is_before(x), 0, list.len() as int);
        } else {
            assert forall|i: int| 0 <= i < list.len() implies (is_before(x)(#[trigger] list[i])
                <==> 0 <= i < r) by {
                if i < n {
                    assert(front[i] == list[i]);
                }
            }
            lemma_filter_stretch(list, is_before(x), 0, r);
        }
    }
}

/// Putting a suffix that the list does not hold at its place keeps the list
/// in order.
pub proof fn lemma_placed(list: Seq<Seq<u8>>, x: Seq<u8>)
    requires
        in_order(list),
        !list.contains(x),
    ensures
        in_order(placed(list, x)),
        placed(list, x).contains(x),
        forall|i: int| 0 <= i < list.len() ==> placed(list, x).contains(#[trigger] list[i]),
        forall|i: int|
            0 <= i < placed(list, x).len() ==> (#[trigger] placed(list, x)[i]) == x || list.contains(
                placed(list, x)[i],
            ),
{
    lemma_rank_splits(list, x);
    let r = list.filter(is_before(x)).len() as int;
    let out = placed(list, x);
    assert(out[r] == x);
    assert forall|i: int| 0 <= i < list.len() implies out.contains(#[trigger] list[i]) by {
        if i < r {
            assert(out[i] == list[i]);
        } else {
            assert(out[i + 1] == list[i]);
        }
    }
    assert forall|i: int| 0 <= i < out.len() implies (#[trigger] out[i]) == x || list.contains(
        out[i],
    ) by {
        if i < r {
            assert(out[i] == list[i]);
        } else if i > r {
            assert(out[i] == list[i - 1]);
        }
    }
    assert forall|i: int, j: int| 0 <= i < j < out.len() implies lex_lt(
        #[trigger] out[i],
        #[trigger] out[j],
    ) by {
        if j == r {
            assert(out[i] == list[i]);
        } else if i == r {
            assert(out[j] == list[j - 1]);
            assert(list.contains(list[j - 1]));
            lemma_lex_total(x, list[j - 1]);
        } else {
            let oi = if i < r {
                i
            } else {
                i - 1
            };
            let oj = if j < r {
                j
            } else {
                j - 1
            };
            assert(out[i] == list[oi] && out[j] == list[oj]);
        }
    }
}

/// The history of `key` after a write that goes through agrees with the
/// log.
proof fn lemma_written_item_ok(s: StoreView, key: Seq<u8>, value: Option<Seq<u8>>)
    requires
        s.inv(),
        s.has_room(),
        s.is_live(key) || value is Some,
    ensures
        s.after_set(key, value).item_ok(key),
{
    let t = s.after_set(key, value);
    let nv = s.written(key, value);
    let it = t.items[key];
    if s.items.contains_key(key) {
        assert(s.item_ok(key));
        let before = s.items[key];
        lemma_count_below_bounds(before.revisions, s.earliest());
        let c = count_below(before.revisions, s.earliest());
        let kept = pruned(before.revisions, s.earliest());
        assert forall|i: int| 0 <= i < kept.len() implies kept[i] == before.revisions[i + c] by {}
        assert forall|i: int, j: int| 0 <= i < j < it.revisions.len() implies it.revisions[i]
            < it.revisions[j] by {
            if j < kept.len() {
                assert(kept[i] < kept[j]);
            } else {
                assert(1 <= before.revisions[i + c] <= s.latest());
            }
        }
        assert forall|i: int| 0 <= i < it.revisions.len() implies 1 <= #[trigger] it.revisions[i]
            <= t.latest() by {
            if i < kept.len() {
                assert(1 <= before.revisions[i + c] <= s.latest());
            }
        }
        assert forall|i: int|
            0 <= i < it.revisions.len() && t.retained(#[trigger] it.revisions[i] as int) implies t.value_at(
            it.revisions[i] as int,
        ).mod_revision == it.revisions[i] by {
            if i < kept.len() {
                assert(1 <= before.revisions[i + c] <= s.latest());
                assert(s.retained(before.revisions[i + c] as int));
                assert(t.value_at(it.revisions[i] as int) == s.value_at(
                    before.revisions[i + c] as int,
                ));
            }
        }
        assert(1 <= before.revisions[before.revisions.len() - 1] <= s.latest());
    } else {
        assert(it.revisions =~= seq![nv.mod_revision]);
    }
    assert(t.value_at(nv.mod_revision as int) == nv);
}

/// A write that goes through keeps what holds of every state.
pub proof fn lemma_set_keeps_inv(
    s: StoreView,
    key: Seq<u8>,
    value: Option<Seq<u8>>,
    required: Option<SetRequired>,
)
    requires
        s.inv(),
        s.set_refusal(key, value, required) is None ==> s.has_room(),
    ensures
        s.set(key, value, required).0.inv(),
{
    if s.set_refusal(key, value, required) is None {
        let t = s.after_set(key, value);
        let p = prefix_of(key);
        let fresh = !s.items.contains_key(key);
        lemma_split_joins(key);
        lemma_written_item_ok(s, key, value);
        assert forall|k: Seq<u8>| #[trigger] t.items.contains_key(k) implies t.item_ok(k) by {
            if k != key {
                assert(s.items.contains_key(k));
                assert(s.item_ok(k));
                let it = s.items[k];
                assert forall|i: int|
                    0 <= i < it.revisions.len() && t.retained(
                        #[trigger] it.revisions[i] as int,
                    ) implies t.value_at(it.revisions[i] as int).mod_revision
                    == it.revisions[i] by {
                    assert(1 <= it.revisions[i] <= s.latest());
                    assert(s.retained(it.revisions[i] as int));
                    assert(t.value_at(it.revisions[i] as int) == s.value_at(
                        it.revisions[i] as int,
                    ));
                }
                assert(1 <= it.revisions[it.revisions.len() - 1] <= s.latest());
                if t.retained(it.latest_value.mod_revision as int) {
                    assert(s.retained(it.latest_value.mod_revision as int));
                    assert(t.value_at(it.latest_value.mod_revision as int) == s.value_at(
                        it.latest_value.mod_revision as int,
                    ));
                }
            }
        }
        let base = if s.index.contains_key(p) {
            s.index[p]
        } else {
            Seq::empty()
        };
        if fresh {
            if s.index.contains_key(p) {
                assert(s.list_ok(p));
            }
            assert(in_order(base));
            if base.contains(suffix_of(key)) {
                let i = choose|i: int| 0 <= i < base.len() && base[i] == suffix_of(key);
                assert(s.items.contains_key(p + base[i]));
                assert(false);
            }
            lemma_placed(base, suffix_of(key));
        }
        assert forall|q: Seq<u8>| #[trigger] t.index.contains_key(q) implies t.list_ok(q) by {
            if fresh && q == p {
                let list = t.index[q];
                assert(list == placed(base, suffix_of(key)));
                assert forall|i: int| 0 <= i < list.len() implies t.items.contains_key(
                    q + #[trigger] list[i],
                ) && prefix_len(q + list[i]) == q.len() by {
                    if list[i] != suffix_of(key) {
                        assert(base.contains(list[i]));
                        let b = choose|b: int| 0 <= b < base.len() && base[b] == list[i];
                        assert(s.items.contains_key(p + base[b]));
                    }
                }
            } else {
                assert(s.index.contains_key(q));
                assert(s.list_ok(q));
                let list = s.index[q];
                assert forall|i: int| 0 <= i < list.len() implies t.items.contains_key(
                    q + #[trigger] list[i],
                ) by {
                    assert(s.items.contains_key(q + list[i]));
                }
            }
        }
        assert forall|k: Seq<u8>| #[trigger] t.items.contains_key(k) implies t.index.contains_key(
            prefix_of(k),
        ) && t.index[prefix_of(k)].contains(suffix_of(k)) by {
            if k != key || !fresh {
                assert(s.items.contains_key(k));
                if fresh && prefix_of(k) == p {
                    let i = choose|i: int|
                        0 <= i < base.len() && base[i] == suffix_of(k);
                    assert(placed(base, suffix_of(key)).contains(base[i]));
                }
            }
        }
    }
}

/// Where the watchers whose start is not above that of `w` are the first
/// `pos`, `pos` is their number.
pub proof fn lemma_stands_before(ws: Seq<WatcherView>, w: WatcherView, pos: int)
    requires
        0 <= pos <= ws.len(),
        forall|i: int|
            0 <= i < ws.len() ==> (lex_lt(w.key_range_start, (#[trigger] ws[i]).key_range_start)
                <==> pos <= i),
    ensures
        ws.filter(crate::model::stands_before(w)).len() == pos,
{
    lemma_filter_stretch(ws, crate::model::stands_before(w), 0, pos);
}

/// A compaction keeps what holds of every state.
pub proof fn lemma_compact_keeps_inv(s: StoreView, rev: i64)
    requires
        s.inv(),
    ensures
        s.compact(rev).inv(),
{
    let t = s.compact(rev);
    if s.compact_answer(rev) is Ok {
        assert forall|k: Seq<u8>| #[trigger] t.items.contains_key(k) implies t.item_ok(k) by {
            assert(s.item_ok(k));
            let it = s.items[k];
            assert forall|i: int|
                0 <= i < it.revisions.len() && t.retained(
                    #[trigger] it.revisions[i] as int,
                ) implies t.value_at(it.revisions[i] as int).mod_revision == it.revisions[i] by {
                assert(s.retained(it.revisions[i] as int));
                assert(t.value_at(it.revisions[i] as int) == s.value_at(it.revisions[i] as int));
            }
            if t.retained(it.latest_value.mod_revision as int) {
                assert(s.retained(it.latest_value.mod_revision as int));
                assert(t.value_at(it.latest_value.mod_revision as int) == s.value_at(
                    it.latest_value.mod_revision as int,
                ));
            }
        }
        assert forall|p: Seq<u8>| #[trigger] t.index.contains_key(p) implies t.list_ok(p) by {
            assert(s.list_ok(p));
        }
    }
}

/// Registering a watcher keeps what holds of every state, as long as the
/// ids do not run out.
pub proof fn lemma_watch_keeps_inv(s: StoreView, start: Seq<u8>, end: Seq<u8>, rev: i64)
    requires
        s.inv(),
        s.can_watch(),
    ensures
        s.watch(start, end, rev).inv(),
{
    let t = s.watch(start, end, rev);
    if !s.watch_refused(rev) {
        let w = s.new_watcher(start, end, rev);
        let ahead = crate::model::stands_before(w);
        lemma_watchers_split(s.watchers, w);
        let pos = s.watchers.filter(ahead).len() as int;
        assert forall|i: int, j: int| 0 <= i < j < t.watchers.len() implies registered_before(
            #[trigger] t.watchers[i],
            #[trigger] t.watchers[j],
        ) by {
            let oi = if i < pos {
                i
            } else {
                i - 1
            };
            let oj = if j < pos {
                j
            } else {
                j - 1
            };
            if j == pos {
                assert(t.watchers[i] == s.watchers[i]);
                lemma_lex_total(s.watchers[i].key_range_start, start);
            } else if i == pos {
                assert(t.watchers[j] == s.watchers[j - 1]);
            } else {
                assert(t.watchers[i] == s.watchers[oi] && t.watchers[j] == s.watchers[oj]);
            }
        }
        assert forall|i: int| 0 <= i < t.watchers.len() implies 1 <= (#[trigger] t.watchers[i]).id
            <= t.watch_counter by {
            if i < pos {
                assert(t.watchers[i] == s.watchers[i]);
            } else if i > pos {
                assert(t.watchers[i] == s.watchers[i - 1]);
            }
        }
    }
    assert forall|k: Seq<u8>| #[trigger] t.items.contains_key(k) implies t.item_ok(k) by {
        assert(s.item_ok(k));
    }
    assert forall|p: Seq<u8>| #[trigger] t.index.contains_key(p) implies t.list_ok(p) by {
        assert(s.list_ok(p));
    }
}

/// In a registry in order, the watchers whose start is not above that of
/// `w` are the first ones, as many as there are.
pub proof fn lemma_watchers_split(ws: Seq<WatcherView>, w: WatcherView)
    requires
        in_registry_order(ws),
    ensures
        0 <= ws.filter(crate::model::stands_before(w)).len() <= ws.len(),
        forall|i: int|
            0 <= i < ws.len() ==> (lex_lt(w.key_range_start, (#[trigger] ws[i]).key_range_start)
                <==> ws.filter(crate::model::stands_before(w)).len() <= i),
    decreases ws.len(),
{
    reveal(Seq::filter);
    let ahead = crate::model::stands_before(w);
    if ws.len() > 0 {
        let front = ws.drop_last();
        let n = ws.len() - 1;
        assert forall|i: int, j: int| 0 <= i < j < front.len() implies registered_before(
            #[trigger] front[i],
            #[trigger] front[j],
        ) by {
            assert(front[i] == ws[i] && front[j] == ws[j]);
        }
        lemma_watchers_split(front, w);
        let r = front.filter(ahead).len() as int;
        if ahead(ws[n]) {
            assert forall|i: int| 0 <= i < ws.len() implies (ahead(#[trigger] ws[i]) <==> 0 <= i
                < ws.len()) by {
                if i < n {
                    assert(registered_before(ws[i], ws[n]));
                    if lex_lt(w.key_range_start, ws[i].key_range_start) {
                        if ws[i].key_range_start != ws[n].key_range_start {
                            lemma_lex_transitive(
                                w.key_range_start,
                                ws[i].key_range_start,
                                ws[n].key_range_start,
                            );
                        }
                    }
                }
            }
            lemma_filter_stretch(ws, ahead, 0, ws.len() as int);
        } else {
            assert forall|i: int| 0 <= i < ws.len() implies (ahead(#[trigger] ws[i]) <==> 0 <= i
                < r) by {
                if i < n {
                    assert(front[i] == ws[i]);
                }
            }
            lemma_filter_stretch(ws, ahead, 0, r);
        }
    }
}

/// Taking a watcher out keeps what holds of every state.
pub proof fn lemma_unwatch_keeps_inv(s: StoreView, start: Seq<u8>, id: i64)
    requires
        s.inv(),
    ensures
        s.unwatch(start, id).inv(),
{
    let t = s.unwatch(start, id);
    let keep = other_than(start, id);
    s.watchers.lemma_filter_len(keep);
    lemma_filter_keeps_order(s.watchers, keep);
    assert forall|i: int| 0 <= i < t.watchers.len() implies 1 <= (#[trigger] t.watchers[i]).id
        <= t.watch_counter by {
        assert(t.watchers.contains(t.watchers[i]));
        s.watchers.lemma_filter_contains_rev(keep, t.watchers[i]);
        let j = choose|j: int| 0 <= j < s.watchers.len() && s.watchers[j] == t.watchers[i];
        assert(1 <= s.watchers[j].id);
    }
    assert forall|k: Seq<u8>| #[trigger] t.items.contains_key(k) implies t.item_ok(k) by {
        assert(s.item_ok(k));
    }
    assert forall|p: Seq<u8>| #[trigger] t.index.contains_key(p) implies t.list_ok(p) by {
        assert(s.list_ok(p));
    }
}

/// What is left of a registry in order is in order.
pub proof fn lemma_filter_keeps_order(ws: Seq<WatcherView>, keep: spec_fn(WatcherView) -> bool)
    requires
        in_registry_order(ws),
    ensures
        in_registry_order(ws.filter(keep)),
    decreases ws.len(),
{
    reveal(Seq::filter);
    if ws.len() > 0 {
        let front = ws.drop_last();
        assert forall|i: int, j: int| 0 <= i < j < front.len() implies registered_before(
            #[trigger] front[i],
            #[trigger] front[j],
        ) by {
            assert(front[i] == ws[i] && front[j] == ws[j]);
        }
        lemma_filter_keeps_order(front, keep);
        let out = ws.filter(keep);
        let sub = front.filter(keep);
        assert forall|i: int, j: int| 0 <= i < j < out.len() implies registered_before(
            #[trigger] out[i],
            #[trigger] out[j],
        ) by {
            if j < sub.len() {
                assert(out[i] == sub[i] && out[j] == sub[j]);
            } else {
                assert(out[i] == sub[i]);
                assert(sub.contains(sub[i]));
                front.lemma_filter_contains_rev(keep, sub[i]);
                let a = choose|a: int| 0 <= a < front.len() && front[a] == sub[i];
                assert(front[a] == ws[a]);
                assert(registered_before(ws[a], ws[ws.len() - 1]));
            }
        }
    }
}

} // verus!
