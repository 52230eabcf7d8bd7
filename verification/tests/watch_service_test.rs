use bytes::Bytes;
use mem_etcd::store::Store;
use mem_etcd::types::KeyValueWithPrev;
use mem_etcd::watch_service::{
    ClientMessage, EventType, SessionStep, WatchError, WatchRequest, WatchResponse, WatchSession,
};

fn put(store: &mut Store, key: &[u8], value: &'static [u8]) -> i64 {
    store.set(key.to_vec(), Some(Bytes::from_static(value)), None).unwrap()
}

fn create(key: &[u8], range_end: &[u8], start_revision: i64, prev_kv: bool) -> WatchRequest {
    WatchRequest::Create {
        key: key.to_vec(),
        range_end: range_end.to_vec(),
        start_revision,
        prev_kv,
    }
}

/// What the watcher `id` is told of the writes since the last call.
fn told(store: &mut Store, id: i64) -> Vec<KeyValueWithPrev> {
    let mut out = Vec::new();
    for job in store.take_notifications() {
        if job.watchers.contains(&id) {
            out.push(job.msg);
        }
    }
    out
}

#[test]
fn test_watch_create_request_success() {
    let mut store = Store::new(None);
    let (session, mut messages) =
        WatchSession::open(&mut store, create(b"foo", b"", 0, false)).unwrap();
    let mut session = session.unwrap();

    // 5) Read the first message -> should show "created: true"
    assert_eq!(messages.len(), 1);
    let first_msg = messages.remove(0);
    assert!(
        first_msg.created,
        "Expected 'created' to be true for a new watch"
    );
    let watch_id = first_msg.watch_id;
    assert!(
        watch_id != 0,
        "Expected a non-zero watch_id for a newly created watch"
    );
    assert!(
        first_msg.events.is_empty(),
        "Expected new watch with no prior events"
    );

    // 6) Trigger a Store change and see if watch yields an event
    put(&mut store, b"foo", b"bar");

    // 7) The watch stream should emit exactly one event with the updated key
    let second_msg = session.on_events(told(&mut store, watch_id));
    assert_eq!(second_msg.watch_id, watch_id, "Watch ID should match");
    assert_eq!(second_msg.events.len(), 1, "Expected 1 event");
    let event = &second_msg.events[0];
    let kv = &event.kv;
    assert_eq!(kv.key, b"foo");
    assert_eq!(kv.value, Bytes::from_static(b"bar"));
}

#[test]
fn test_watch_invalid_argument() {
    let mut store = Store::new(None);
    let result = WatchSession::open(&mut store, WatchRequest::Unset);
    assert!(result.is_err(), "should produce invalid_argument error");
    let status = result.err().unwrap();
    assert_eq!(status, WatchError::NotSupported);
    assert!(
        status.message().contains("Not supported"),
        "expected 'Not supported' error message"
    );
}

#[test]
fn test_watch_compacted_revision() {
    let mut store = Store::new(None);
    put(&mut store, b"foo", b"v1"); // rev 1
    put(&mut store, b"foo", b"v2"); // rev 2
    put(&mut store, b"foo", b"v3"); // rev 3

    // Compact at revision 3
    store.compact(3).unwrap();

    // 2) Attempt to watch from revision 1 (which is already compacted)
    let (session, mut messages) =
        WatchSession::open(&mut store, create(b"foo", b"", 1, false)).unwrap();
    assert!(session.is_none());

    // The first (and only) message should signal a compacted revision
    assert_eq!(messages.len(), 1);
    let WatchResponse { compact_revision, events, .. } = messages.remove(0);
    assert!(
        compact_revision != 0,
        "Expected a non-zero compact_revision for a watch request < compaction"
    );
    assert!(
        events.is_empty(),
        "Expected no events when the watch request is below the compacted revision"
    );
}

#[test]
fn test_watch_past_changes_on_create() {
    // 1) Create and populate store
    let mut store = Store::new(None);
    put(&mut store, b"a", b"a1"); // rev 1
    put(&mut store, b"a", b"a2"); // rev 2
    put(&mut store, b"a", b"a3"); // rev 3
    put(&mut store, b"b", b"b1"); // rev 4
    store.take_notifications();

    // 3) Watch from revision 2, which should catch "a2", "a3", and "b" changes
    let (session, mut messages) =
        WatchSession::open(&mut store, create(b"a", b"z", 2, false)).unwrap();
    let mut session = session.unwrap();
    assert_eq!(messages.len(), 2);

    let first_msg = messages.remove(0);
    assert!(first_msg.created, "expected created == true");
    assert!(
        first_msg.events.is_empty(),
        "expected no events in the creation response"
    );

    // 5) The second message should contain the past changes
    let second_msg = messages.remove(0);
    let events = second_msg.events;
    assert_eq!(events.len(), 3, "expected 3 events for revs 2..4");
    assert_eq!(events[0].kv.value, Bytes::from_static(b"a2"));
    assert_eq!(events[1].kv.value, Bytes::from_static(b"a3"));
    assert_eq!(events[2].kv.value, Bytes::from_static(b"b1"));

    // 6) Now do a new set and see if it streams in
    put(&mut store, b"a", b"a4");
    let next_msg = session.on_events(told(&mut store, session.watcher_id()));
    assert_eq!(next_msg.events.len(), 1);
    assert_eq!(next_msg.events[0].kv.value, Bytes::from_static(b"a4"));
}

#[test]
fn test_watch_delete_event() {
    let mut store = Store::new(None);
    put(&mut store, b"foo", b"bar"); // rev 1
    store.take_notifications();
    let (session, _) = WatchSession::open(&mut store, create(b"foo", b"", 0, false)).unwrap();
    let mut session = session.unwrap();

    // 2) Delete the key
    let rev = store.delete(b"foo".to_vec(), None).unwrap();
    assert_eq!(rev, 2, "unexpected revision after delete");

    // 3) Confirm the watch sees a delete event
    let msg = session.on_events(told(&mut store, session.watcher_id()));
    let events = msg.events;
    assert_eq!(events.len(), 1);
    let kv = &events[0].kv;
    assert_eq!(kv.key, b"foo");
    assert!(
        kv.value.is_empty(),
        "delete event should have an empty value field"
    );
    assert_eq!(events[0].kind, EventType::Delete);
}

#[test]
fn test_watch_prev_kv_delete() {
    let mut store = Store::new(None);
    put(&mut store, b"foo", b"bar"); // rev 1
    store.take_notifications();
    let (session, _) = WatchSession::open(&mut store, create(b"foo", b"", 0, true)).unwrap();
    let mut session = session.unwrap();

    // 2) Delete the key
    let rev = store.delete(b"foo".to_vec(), None).unwrap();
    assert_eq!(rev, 2, "unexpected revision after delete");

    // 3) Confirm the watch sees a delete event
    let msg = session.on_events(told(&mut store, session.watcher_id()));
    let events = msg.events;
    assert_eq!(events.len(), 1);
    let kv = &events[0].kv;
    assert_eq!(kv.key, b"foo");
    assert!(
        kv.value.is_empty(),
        "delete event should have an empty value field"
    );
    assert!(
        events[0].prev_kv.is_some(),
        "delete event should have a prev_kv field"
    );
}

#[test]
fn test_watch_prev_kv_put() {
    let mut store = Store::new(None);
    put(&mut store, b"foo", b"bar"); // rev 1
    store.take_notifications();
    let (session, _) = WatchSession::open(&mut store, create(b"foo", b"", 0, true)).unwrap();
    let mut session = session.unwrap();

    // 2) Set the key
    put(&mut store, b"foo", b"baz");

    // 3) Confirm the watch sees a put event
    let msg = session.on_events(told(&mut store, session.watcher_id()));
    let events = msg.events;
    assert_eq!(events.len(), 1);
    let kv = &events[0].kv;
    assert_eq!(kv.key, b"foo");
    assert_eq!(events[0].kv.value, Bytes::from_static(b"baz"));
    assert_eq!(
        events[0].prev_kv.as_ref().unwrap().value,
        Bytes::from_static(b"bar"),
        "prev_kv should be bar"
    );
    assert_eq!(events[0].kind, EventType::Put);
}

#[test]
fn test_watch_prev_kv_put_latest_rev() {
    // If client does a watch with prev_kv=tru and revision>0, still include prev_kv's whose modRevision < revision
    let mut store = Store::new(None);
    put(&mut store, b"a", b"a1"); // rev 1
    put(&mut store, b"a", b"a2"); // rev 2
    put(&mut store, b"z", b"z3"); // rev 3
    put(&mut store, b"a", b"a4"); // rev 4
    put(&mut store, b"a", b"a5"); // rev 5

    // Try both rev 3 (where key is different) and rev 4 (where key is the same)
    for start_revision in 3..=4 {
        let (_, mut messages) =
            WatchSession::open(&mut store, create(b"a", b"b", start_revision, true)).unwrap();
        assert_eq!(messages.len(), 2);
        let first_msg = messages.remove(0);
        assert!(first_msg.created, "expected created == true");
        assert!(
            first_msg.events.is_empty(),
            "expected no events in the creation response"
        );

        // 5) The second message should contain the past changes
        let second_msg = messages.remove(0);
        let events = second_msg.events;
        assert_eq!(events.len(), 2, "expected 1 events for revs 4&5");
        assert_eq!(events[1].kv.value, Bytes::from_static(b"a5"));
        assert_eq!(events[1].prev_kv.as_ref().unwrap().mod_revision, 4);
        assert_eq!(events[0].kv.value, Bytes::from_static(b"a4"));

        // This is the critical part of the test
        assert_eq!(events[0].prev_kv.as_ref().unwrap().mod_revision, 2);
        assert_eq!(events[0].prev_kv.as_ref().unwrap().value, Bytes::from_static(b"a2"));
    }
}

#[test]
fn opening_messages_carry_the_current_revision() {
    let mut store = Store::new(None);
    put(&mut store, b"k", b"1");
    put(&mut store, b"k", b"2");
    let (session, messages) = WatchSession::open(&mut store, create(b"k", b"", 1, false)).unwrap();
    assert_eq!(session.unwrap().watcher_id(), 1);
    assert_eq!(messages.len(), 2);
    assert_eq!(messages[0].revision, 2);
    assert_eq!(messages[0].watch_id, 1);
    assert_eq!(messages[0].compact_revision, 0);
    assert_eq!(messages[1].revision, 2);
    assert_eq!(messages[1].watch_id, 1);
    assert!(!messages[1].created);
    assert_eq!(messages[1].events.len(), 2);
    // the version before is left out where the client did not ask for it
    assert!(messages[1].events[1].prev_kv.is_none());
}

#[test]
fn batch_of_events_is_one_message_at_the_last_revision() {
    let mut store = Store::new(None);
    let (session, _) = WatchSession::open(&mut store, create(b"k", b"", 0, false)).unwrap();
    let mut session = session.unwrap();
    put(&mut store, b"k", b"1");
    put(&mut store, b"k", b"2");
    put(&mut store, b"k", b"3");
    let msg = session.on_events(told(&mut store, 1));
    assert_eq!(msg.revision, 3);
    assert_eq!(msg.events.len(), 3);
    assert_eq!(msg.events[0].kv.mod_revision, 1);
    assert_eq!(msg.events[2].kv.mod_revision, 3);

    // progress: the later of what the notifier published and what was sent
    match session.on_client_message(&mut store, ClientMessage::Request(WatchRequest::Progress), 2) {
        SessionStep::Reply(m) => {
            assert_eq!(m.revision, 3);
            assert_eq!(m.watch_id, 1);
            assert!(m.events.is_empty());
            assert!(!m.created);
        }
        other => panic!("unexpected step {:?}", other),
    }
    match session.on_client_message(&mut store, ClientMessage::Request(WatchRequest::Progress), 7) {
        SessionStep::Reply(m) => assert_eq!(m.revision, 7),
        other => panic!("unexpected step {:?}", other),
    }
}

#[test]
fn cancel_and_failure_end_the_session() {
    let mut store = Store::new(None);
    let (session, _) = WatchSession::open(&mut store, create(b"k", b"", 0, false)).unwrap();
    let session = session.unwrap();
    assert_eq!(store.watcher_count(), 1);

    // a cancel for another watch, the end of the requests and other requests are ignored
    let step = session.on_client_message(
        &mut store,
        ClientMessage::Request(WatchRequest::Cancel { watch_id: 9 }),
        0,
    );
    assert!(matches!(step, SessionStep::Ignore));
    let step = session.on_client_message(&mut store, ClientMessage::End, 0);
    assert!(matches!(step, SessionStep::Ignore));
    let step = session.on_client_message(&mut store, ClientMessage::Request(WatchRequest::Unset), 0);
    assert!(matches!(step, SessionStep::Ignore));
    let step = session.on_client_message(
        &mut store,
        ClientMessage::Request(create(b"x", b"", 0, false)),
        0,
    );
    assert!(matches!(step, SessionStep::Ignore));
    assert_eq!(store.watcher_count(), 1);

    let step = session.on_client_message(
        &mut store,
        ClientMessage::Request(WatchRequest::Cancel { watch_id: 1 }),
        0,
    );
    assert!(matches!(step, SessionStep::Close));
    assert_eq!(store.watcher_count(), 0);

    let (session, _) = WatchSession::open(&mut store, create(b"k", b"", 0, false)).unwrap();
    let session = session.unwrap();
    assert_eq!(session.watcher_id(), 2);
    let step = session.on_client_message(&mut store, ClientMessage::Failed, 0);
    assert!(matches!(step, SessionStep::Close));
    assert_eq!(store.watcher_count(), 0);
}
