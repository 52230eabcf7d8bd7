use bytes::Bytes;
use mem_etcd::notify::Notifier;
use mem_etcd::store::Store;
use mem_etcd::types::KeyValueWithPrev;
use std::collections::HashMap;

/// A store with its notifier and one inbox per watcher, standing for the
/// channels between them.
struct Hub {
    store: Store,
    notifier: Notifier,
    inbox: HashMap<i64, Vec<KeyValueWithPrev>>,
}

impl Hub {
    fn new() -> Hub {
        Hub { store: Store::new(None), notifier: Notifier::new(None), inbox: HashMap::new() }
    }

    fn deliver(&mut self) {
        for job in self.store.take_notifications() {
            for sent in self.notifier.receive(job) {
                for id in sent.job.watchers.iter() {
                    self.inbox.entry(*id).or_default().push(sent.job.msg.clone());
                }
            }
        }
    }

    fn set(&mut self, key: &[u8], value: &'static [u8]) -> i64 {
        let rev = self.store.set(key.to_vec(), Some(Bytes::from_static(value)), None).unwrap();
        self.deliver();
        rev
    }

    fn delete(&mut self, key: &[u8]) -> i64 {
        let rev = self.store.delete(key.to_vec(), None).unwrap();
        self.deliver();
        rev
    }

    fn watch(&mut self, start: &[u8], end: &[u8], rev: i64, prev: bool) -> Result<(Vec<KeyValueWithPrev>, i64), i64> {
        self.store.watch(start.to_vec(), end.to_vec(), rev, prev)
    }

    fn recv(&mut self, id: i64) -> Option<KeyValueWithPrev> {
        let queue = self.inbox.entry(id).or_default();
        if queue.is_empty() {
            None
        } else {
            Some(queue.remove(0))
        }
    }
}

#[test]
fn test_watch_past_results() {
    let mut s = Hub::new();
    s.set(b"a", b"a1"); // rev 1
    s.set(b"a", b"a2"); // rev 2
    s.set(b"a", b"a3"); // rev 3
    s.set(b"b", b"b1"); // rev 4
    s.set(b"a", b"a4"); // rev 5

    let (kvs, _) = s.watch(b"a", b"", 0, false).unwrap();
    assert_eq!(kvs.len(), 0, "unexpected kvs: {:?}", kvs);

    let (kvs, _) = s.watch(b"a", b"", 1, false).unwrap();
    assert_eq!(kvs.len(), 4, "unexpected kvs: {:?}", kvs);

    let (kvs, _) = s.watch(b"b", b"", 1, false).unwrap();
    assert_eq!(kvs.len(), 1, "unexpected kvs: {:?}", kvs);

    let (kvs, _) = s.watch(b"b", b"", 4, false).unwrap();
    assert_eq!(kvs.len(), 1, "unexpected kvs: {:?}", kvs);

    let (kvs, _) = s.watch(b"b", b"", 5, false).unwrap();
    assert_eq!(kvs.len(), 0, "unexpected kvs: {:?}", kvs);

    let (kvs, _) = s.watch(b"a", b"c", 1, false).unwrap();
    assert_eq!(kvs.len(), 5, "unexpected kvs: {:?}", kvs);
}

#[test]
fn test_watch_at_compaction() {
    let mut s = Hub::new();
    s.set(b"a", b"a1");
    s.set(b"a", b"a2");
    s.set(b"a", b"a3");
    s.set(b"b", b"b4");

    s.store.compact(3).unwrap();

    let (kvs, _) = s.watch(b"a", b"c", 3, false).unwrap();
    assert_eq!(kvs.len(), 2, "unexpected kvs: {:?}", kvs);
    assert_eq!(kvs[0].kv.value, b"a3".to_vec(), "unexpected value");
    assert_eq!(kvs[1].kv.value, b"b4".to_vec(), "unexpected value");
}

#[test]
fn test_watch_single() {
    let mut s = Hub::new();
    s.set(b"foo", b"v1");
    s.set(b"foo", b"v2");

    let (_, w) = s.watch(b"foo", b"", 0, false).unwrap();

    // Verify that w.ch is empty
    assert!(s.recv(w).is_none(), "unexpected event");

    s.set(b"foo", b"v3");
    s.set(b"foo", b"v4");

    let c = s.recv(w).unwrap();
    assert_eq!(c.kv.value, b"v3".to_vec(), "unexpected value");

    let c = s.recv(w).unwrap();
    assert_eq!(c.kv.value, b"v4".to_vec(), "unexpected value");
}

#[test]
fn test_watch_range() {
    let mut s = Hub::new();
    s.set(b"a", b"a1");
    s.set(b"b", b"b1");

    let (_, a) = s.watch(b"a", b"", 0, false).unwrap();
    let (_, b) = s.watch(b"b", b"", 0, false).unwrap();
    let (_, ac) = s.watch(b"a", b"c", 0, false).unwrap();

    // Verify that all are empty
    assert!(s.recv(a).is_none(), "unexpected event");
    assert!(s.recv(b).is_none(), "unexpected event");
    assert!(s.recv(ac).is_none(), "unexpected event");

    s.set(b"c", b"c1");
    // Verify that all are empty. Watch end range is exclusive.
    assert!(s.recv(a).is_none(), "unexpected event");
    assert!(s.recv(b).is_none(), "unexpected event");
    assert!(s.recv(ac).is_none(), "unexpected event");

    s.set(b"a", b"a2");
    let v = s.recv(a).unwrap();
    assert_eq!(v.kv.value, b"a2".to_vec(), "unexpected value");

    let v = s.recv(ac).unwrap();
    assert_eq!(v.kv.value, b"a2".to_vec(), "unexpected value");

    assert!(s.recv(b).is_none(), "unexpected event");

    s.set(b"b", b"b2");
    assert!(s.recv(a).is_none(), "unexpected event");

    let v = s.recv(b).unwrap();
    assert_eq!(v.kv.key, b"b".to_vec(), "unexpected key");
    assert_eq!(v.kv.value, b"b2".to_vec(), "unexpected value");

    let v = s.recv(ac).unwrap();
    assert_eq!(v.kv.key, b"b".to_vec(), "unexpected key");
    assert_eq!(v.kv.value, b"b2".to_vec(), "unexpected value");

    assert!(s.recv(a).is_none(), "unexpected event");
}

#[test]
fn test_watch_revision_error() {
    let mut s = Hub::new();
    s.set(b"a", b"a1");
    s.set(b"a", b"a2");
    s.set(b"a", b"a3");

    s.store.compact(2).unwrap();

    let result = s.watch(b"a", b"", 1, false);
    assert!(result.is_err(), "expected ErrCompacted");
}

#[test]
fn test_watch_future_revision() {
    let mut s = Hub::new();
    s.set(b"a", b"a1"); // rev 1
    s.set(b"a", b"a2"); // rev 2
    s.set(b"a", b"a3"); // rev 3

    let (_, a) = s.watch(b"a", b"", 4, false).unwrap();
    assert!(s.recv(a).is_none(), "unexpected event");

    s.set(b"a", b"a4"); // rev 4
    let v = s.recv(a).unwrap();
    assert_eq!(v.kv.value, b"a4".to_vec(), "unexpected value");
}

#[test]
fn test_watch_delete() {
    let mut s = Hub::new();

    s.set(b"a", b"r1");
    s.set(b"a", b"r2");

    let rev = s.delete(b"a");
    assert_eq!(rev, 3, "unexpected revision");

    let (revs, _) = s.watch(b"a", b"", 1, false).unwrap();
    assert_eq!(revs.len(), 3, "Expected 3 revisions, got {}", revs.len());
    assert_eq!(
        revs[0].kv.value,
        b"r1".to_vec(),
        "Expected r1, got {:?}",
        revs[0].kv.value
    );
    assert_eq!(
        revs[1].kv.value,
        b"r2".to_vec(),
        "Expected r2, got {:?}",
        revs[1].kv.value
    );
    assert_eq!(
        revs[2].kv.value,
        b"".to_vec(),
        "Expected value to be None, got {:?}",
        revs[2].kv.value
    );

    s.set(b"a", b"r3");
    let (_, w) = s.watch(b"a", b"", 4, false).unwrap();
    assert!(s.recv(w).is_none(), "unexpected event");

    s.delete(b"a");
    let v = s.recv(w).unwrap();
    assert_eq!(
        v.kv.value,
        b"".to_vec(),
        "Expected value to be None, got {:?}",
        v.kv.value
    );
}

#[test]
fn backfill_with_prev_crosses_the_start_revision() {
    let mut s = Hub::new();
    s.set(b"a", b"a1"); // 1
    s.set(b"a", b"a2"); // 2
    s.set(b"a", b"a3"); // 3
    s.set(b"b", b"b1"); // 4
    s.set(b"a", b"a4"); // 5
    let (past, _) = s.watch(b"a", b"", 2, true).unwrap();
    assert_eq!(past.len(), 3);
    assert_eq!(past[0].kv.value, b"a2".to_vec());
    assert_eq!(past[0].kv.mod_revision, 2);
    assert_eq!(past[0].prev_kv.as_ref().unwrap().value, b"a1".to_vec());
    assert_eq!(past[0].prev_kv.as_ref().unwrap().mod_revision, 1);
    assert_eq!(past[1].prev_kv.as_ref().unwrap().mod_revision, 2);
    assert_eq!(past[2].kv.mod_revision, 5);
    assert_eq!(past[2].prev_kv.as_ref().unwrap().mod_revision, 3);
    assert_eq!(past[2].kv.version, 4);
    assert_eq!(past[2].kv.create_revision, 1);

    // without the wish for it no version before goes along
    let (past, _) = s.watch(b"a", b"", 2, false).unwrap();
    assert!(past.iter().all(|e| e.prev_kv.is_none()));
}

#[test]
fn backfill_drops_prev_that_was_compacted() {
    let mut s = Hub::new();
    s.set(b"a", b"a1"); // 1
    s.set(b"a", b"a2"); // 2
    s.set(b"a", b"a3"); // 3
    s.store.compact(3).unwrap();
    let (past, _) = s.watch(b"a", b"", 3, true).unwrap();
    assert_eq!(past.len(), 1);
    assert_eq!(past[0].kv.value, b"a3".to_vec());
    assert!(past[0].prev_kv.is_none());
}

#[test]
fn live_event_carries_the_version_before() {
    let mut s = Hub::new();
    s.set(b"a", b"a1");
    let (_, w) = s.watch(b"a", b"", 0, true).unwrap();
    s.set(b"a", b"a2");
    s.delete(b"a");
    s.set(b"a", b"a3");
    let e = s.recv(w).unwrap();
    assert_eq!(e.kv.mod_revision, 2);
    assert_eq!(e.prev_kv.as_ref().unwrap().value, b"a1".to_vec());
    let e = s.recv(w).unwrap();
    assert_eq!(e.kv.mod_revision, 3);
    assert_eq!(e.kv.version, 0);
    assert_eq!(e.kv.create_revision, 0);
    assert_eq!(e.prev_kv.as_ref().unwrap().value, b"a2".to_vec());
    let e = s.recv(w).unwrap();
    assert_eq!(e.kv.mod_revision, 4);
    assert_eq!(e.kv.create_revision, 4);
    assert_eq!(e.kv.version, 1);
    // the version before a re-creation is the deletion
    let prev = e.prev_kv.as_ref().unwrap();
    assert_eq!(prev.mod_revision, 3);
    assert_eq!(prev.version, 0);
    assert!(prev.value.is_empty());
}

#[test]
fn unwatch_stops_the_notifications() {
    let mut s = Hub::new();
    let (_, w1) = s.watch(b"k", b"", 0, false).unwrap();
    let (_, w2) = s.watch(b"k", b"", 0, false).unwrap();
    assert_eq!((w1, w2), (1, 2));
    assert_eq!(s.store.watcher_count(), 2);
    s.store.unwatch(b"k".to_vec(), w1);
    assert_eq!(s.store.watcher_count(), 1);
    // a watcher is registered under its start and its id together
    s.store.unwatch(b"other".to_vec(), w2);
    assert_eq!(s.store.watcher_count(), 1);
    s.set(b"k", b"v");
    assert!(s.recv(w1).is_none());
    assert_eq!(s.recv(w2).unwrap().kv.value, b"v".to_vec());
}

#[test]
fn watchers_are_matched_in_registry_order() {
    let mut s = Hub::new();
    let (_, wide) = s.watch(b"a", b"z", 0, false).unwrap();
    let (_, point) = s.watch(b"m", b"", 0, false).unwrap();
    let (_, early) = s.watch(b"a", b"n", 0, false).unwrap();
    let (_, late) = s.watch(b"m", b"", 5, false).unwrap();
    let (_, beyond) = s.watch(b"n", b"z", 0, false).unwrap();
    s.store.set(b"m".to_vec(), Some(Bytes::from_static(b"1")), None).unwrap();
    let jobs = s.store.take_notifications();
    assert_eq!(jobs.len(), 1);
    assert_eq!(jobs[0].rev, 1);
    // by start of range, then by id; the watch from revision 5 and the range from "n" are not told
    assert_eq!(jobs[0].watchers, vec![wide, early, point]);
    assert!(!jobs[0].watchers.contains(&late));
    assert!(!jobs[0].watchers.contains(&beyond));
    assert_eq!(jobs[0].prefix, b"".to_vec());
    assert!(!jobs[0].wal_sync);
    assert!(s.store.take_notifications().is_empty());
}

#[test]
fn watch_of_a_range_across_prefixes_registers_and_fails() {
    let mut s = Hub::new();
    s.set(b"/registry/pods/a", b"1");
    let r = s.watch(b"/registry/pods/a", b"/registry/roles/b", 1, false);
    assert_eq!(r.unwrap_err(), 0);
    assert_eq!(s.store.watcher_count(), 1);
    // without a revision nothing is read, and the watch goes through
    let r = s.watch(b"/registry/pods/a", b"/registry/roles/b", 0, false);
    assert_eq!(r.unwrap().1, 2);
}
