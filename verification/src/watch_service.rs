//! The session of one watching client: the answer to its first request,
//! the past changes, and then the changes as they come, with the client's
//! requests for progress and for an end in between.

use crate::buffer::bytes_len;
use crate::model::StoreView;
use crate::store::Store;
use crate::types::{events_view, opt_kv_view, EventView, KeyValue, KeyValueView, KeyValueWithPrev};
use vstd::prelude::*;

verus! {

/// What happened to a key.
#[derive(Copy, Clone, Debug, PartialEq, Eq, Structural)]
pub enum EventType {
    Put,
    Delete,
}

/// A change as it is sent to a watching client.
#[derive(Debug)]
pub struct Event {
    pub kind: EventType,
    pub kv: KeyValue,
    pub prev_kv: Option<KeyValue>,
}

/// Mathematical model of an [`Event`].
pub struct SentEventView {
    pub kind: EventType,
    pub kv: KeyValueView,
    pub prev_kv: Option<KeyValueView>,
}

impl View for Event {
    type V = SentEventView;

    open spec fn view(&self) -> SentEventView {
        SentEventView { kind: self.kind, kv: self.kv@, prev_kv: opt_kv_view(self.prev_kv) }
    }
}

/// A message to a watching client.
#[derive(Debug)]
pub struct WatchResponse {
    /// The revision in the header.
    pub revision: i64,
    pub watch_id: i64,
    pub created: bool,
    pub compact_revision: i64,
    pub events: Vec<Event>,
}

/// Mathematical model of a [`WatchResponse`].
pub struct WatchResponseView {
    pub revision: i64,
    pub watch_id: i64,
    pub created: bool,
    pub compact_revision: i64,
    pub events: Seq<SentEventView>,
}

impl View for WatchResponse {
    type V = WatchResponseView;

    open spec fn view(&self) -> WatchResponseView {
        WatchResponseView {
            revision: self.revision,
            watch_id: self.watch_id,
            created: self.created,
            compact_revision: self.compact_revision,
            events: self.events@.map_values(|e: Event| e@),
        }
    }
}

/// Mathematical model of a list of messages.
pub open spec fn responses_view(rs: Seq<WatchResponse>) -> Seq<WatchResponseView> {
    rs.map_values(|r: WatchResponse| r@)
}

/// A request of a watching client.
#[derive(Debug)]
pub enum WatchRequest {
    Create { key: Vec<u8>, range_end: Vec<u8>, start_revision: i64, prev_kv: bool },
    Cancel { watch_id: i64 },
    Progress,
    /// A request without content.
    Unset,
}

/// Why a session could not be opened.
#[derive(Copy, Clone, Debug, PartialEq, Eq, Structural)]
pub enum WatchError {
    /// The first request does not ask for a watch.
    NotSupported,
}

impl WatchError {
    /// The text with which the error is reported, as an invalid argument.
    pub fn message(&self) -> (m: &'static str)
        ensures
            m@ == "Not supported"@,
    {
        "Not supported"
    }
}

/// What the client's side of the stream delivered.
#[derive(Debug)]
pub enum ClientMessage {
    Request(WatchRequest),
    /// The stream has no further request.
    End,
    /// The stream failed.
    Failed,
}

/// What the session does in answer to the client.
#[derive(Debug)]
pub enum SessionStep {
    /// A message is sent.
    Reply(WatchResponse),
    /// Nothing happens.
    Ignore,
    /// The watcher has been taken out of the store; the stream ends.
    Close,
}

/// The change `e` as it is sent: a change to an empty value is a
/// deletion, and the version before it goes along where the client asked
/// for it.
pub open spec fn sent(e: EventView, prev_kv: bool) -> SentEventView {
    SentEventView {
        kind: if e.kv.value.len() == 0 {
            EventType::Delete
        } else {
            EventType::Put
        },
        kv: e.kv,
        prev_kv: if prev_kv {
            e.prev_kv
        } else {
            None
        },
    }
}

/// The changes `events` as they are sent.
pub open spec fn all_sent(events: Seq<EventView>, prev_kv: bool) -> Seq<SentEventView> {
    events.map_values(|e: EventView| sent(e, prev_kv))
}

/// Turns the changes into what is sent.
pub fn to_events(changes: Vec<KeyValueWithPrev>, prev_kv: bool) -> (events: Vec<Event>)
    ensures
        events@.map_values(|e: Event| e@) == all_sent(events_view(changes@), prev_kv),
{
    let mut events: Vec<Event> = Vec::new();
    let mut changes = changes;
    let ghost all = events_view(changes@);
    let ghost n = changes.len();
    // taken from the back, so put in order afterwards
    let mut reversed: Vec<Event> = Vec::new();
    while changes.len() > 0
        invariant
            changes.len() <= n,
            n == all.len(),
            events_view(changes@) == all.take(changes.len() as int),
            reversed.len() == n - changes.len(),
            forall|i: int|
                0 <= i < reversed.len() ==> (#[trigger] reversed[i])@ == sent(
                    all[n - 1 - i],
                    prev_kv,
                ),
        decreases changes.len(),
    {
        let ghost before = events_view(changes@);
        let kv = changes.pop().unwrap();
        assert(kv@ == before[before.len() - 1]);
        assert(events_view(changes@) =~= all.take(changes.len() as int));
        let kind = if bytes_len(&kv.kv.value) == 0 {
            EventType::Delete
        } else {
            EventType::Put
        };
        reversed.push(
            Event {
                kind,
                kv: kv.kv,
                prev_kv: if prev_kv {
                    kv.prev_kv
                } else {
                    None
                },
            },
        );
    }
    while reversed.len() > 0
        invariant
            reversed.len() <= n,
            n == all.len(),
            events.len() == n - reversed.len(),
            forall|i: int|
                0 <= i < reversed.len() ==> (#[trigger] reversed[i])@ == sent(
                    all[n - 1 - i],
                    prev_kv,
                ),
            forall|i: int| 0 <= i < events.len() ==> (#[trigger] events[i])@ == sent(all[i], prev_kv),
        decreases reversed.len(),
    {
        let e = reversed.pop().unwrap();
        events.push(e);
    }
    assert(events@.map_values(|e: Event| e@) =~= all_sent(all, prev_kv));
    events
}

/// The state of the session of one watching client.
pub struct WatchSession {
    watcher_id: i64,
    /// The start of the watched range, under which the watcher is
    /// registered.
    key: Vec<u8>,
    prev_kv: bool,
    /// The last revision that was sent to the client.
    max_event_stream_rev: i64,
}

/// Mathematical model of a [`WatchSession`].
pub struct SessionView {
    pub watcher_id: i64,
    pub key: Seq<u8>,
    pub prev_kv: bool,
    pub max_event_stream_rev: i64,
}

impl View for WatchSession {
    type V = SessionView;

    closed spec fn view(&self) -> SessionView {
        SessionView {
            watcher_id: self.watcher_id,
            key: self.key@,
            prev_kv: self.prev_kv,
            max_event_stream_rev: self.max_event_stream_rev,
        }
    }
}

/// The message that confirms a watch.
pub open spec fn created_message(revision: i64, watch_id: i64) -> WatchResponseView {
    WatchResponseView {
        revision,
        watch_id,
        created: true,
        compact_revision: 0,
        events: Seq::empty(),
    }
}

/// A message that carries changes.
pub open spec fn events_message(revision: i64, watch_id: i64, events: Seq<SentEventView>) -> WatchResponseView {
    WatchResponseView { revision, watch_id, created: false, compact_revision: 0, events }
}

/// The messages that answer a request for a watch.  Where the store
/// refuses the watch, one message with the compaction floor; else the
/// confirmation and, where there are past changes, one message with all of
/// them.
pub open spec fn opening_messages(
    s: StoreView,
    key: Seq<u8>,
    range_end: Seq<u8>,
    start_revision: i64,
    prev_kv: bool,
) -> Seq<WatchResponseView> {
    match s.watch_answer(key, range_end, start_revision, prev_kv) {
        Err(floor) => seq![
            WatchResponseView {
                revision: 0,
                watch_id: 0,
                created: false,
                compact_revision: floor,
                events: Seq::empty(),
            },
        ],
        Ok((past, id)) => if past.len() == 0 {
            seq![created_message(s.latest() as i64, id)]
        } else {
            seq![
                created_message(s.latest() as i64, id),
                events_message(s.latest() as i64, id, all_sent(past, prev_kv)),
            ]
        },
    }
}

impl WatchSession {
    pub fn watcher_id(&self) -> (id: i64)
        ensures
            id == self@.watcher_id,
    {
        self.watcher_id
    }

    /// Answers the first request of a client.  A request for a watch
    /// registers the watcher and opens the session, unless the store
    /// refuses the watch; any other request is not supported.
    pub fn open(store: &mut Store, request: WatchRequest) -> (r: Result<
        (Option<WatchSession>, Vec<WatchResponse>),
        WatchError,
    >)
        requires
            old(store).wf(),
            old(store)@.can_watch(),
        ensures
            final(store).wf(),
            match request {
                WatchRequest::Create { key, range_end, start_revision, prev_kv } => {
                    &&& final(store)@ == old(store)@.watch(key@, range_end@, start_revision)
                    &&& r matches Ok((session, messages))
                    &&& responses_view(messages@) == opening_messages(
                        old(store)@,
                        key@,
                        range_end@,
                        start_revision,
                        prev_kv,
                    )
                    &&& match old(store)@.watch_answer(key@, range_end@, start_revision, prev_kv) {
                        Ok((_, id)) => session matches Some(w) && w@ == (SessionView {
                            watcher_id: id,
                            key: key@,
                            prev_kv,
                            max_event_stream_rev: 0,
                        }),
                        Err(_) => session is None,
                    }
                },
                _ => r == Err::<(Option<WatchSession>, Vec<WatchResponse>), WatchError>(
                    WatchError::NotSupported,
                ) && final(store)@ == old(store)@,
            },
    {
        match request {
            WatchRequest::Create { key, range_end, start_revision, prev_kv } => {
                let revision = store.current_revision();
                let registered_under = key.clone();
                let mut messages: Vec<WatchResponse> = Vec::new();
                match store.watch(key, range_end, start_revision, prev_kv) {
                    Err(floor) => {
                        messages.push(
                            WatchResponse {
                                revision: 0,
                                watch_id: 0,
                                created: false,
                                compact_revision: floor,
                                events: Vec::new(),
                            },
                        );
                        proof {
                            assert(messages[0]@.events =~= Seq::<SentEventView>::empty());
                            assert(responses_view(messages@) =~= opening_messages(
                                old(store)@,
                                key@,
                                range_end@,
                                start_revision,
                                prev_kv,
                            ));
                        }
                        Ok((None, messages))
                    },
                    Ok((past_changes, watcher_id)) => {
                        messages.push(
                            WatchResponse {
                                revision,
                                watch_id: watcher_id,
                                created: true,
                                compact_revision: 0,
                                events: Vec::new(),
                            },
                        );
                        assert(messages[0]@.events =~= Seq::<SentEventView>::empty());
                        if past_changes.len() > 0 {
                            let events = to_events(past_changes, prev_kv);
                            messages.push(
                                WatchResponse {
                                    revision,
                                    watch_id: watcher_id,
                                    created: false,
                                    compact_revision: 0,
                                    events,
                                },
                            );
                        }
                        proof {
                            assert(responses_view(messages@) =~= opening_messages(
                                old(store)@,
                                key@,
                                range_end@,
                                start_revision,
                                prev_kv,
                            ));
                        }
                        let session = WatchSession {
                            watcher_id,
                            key: registered_under,
                            prev_kv,
                            max_event_stream_rev: 0,
                        };
                        Ok((Some(session), messages))
                    },
                }
            },
            _ => Err(WatchError::NotSupported),
        }
    }

    /// Turns a batch of changes from the watcher's channel into the message
    /// that carries them; its revision is that of the last change.
    pub fn on_events(&mut self, batch: Vec<KeyValueWithPrev>) -> (message: WatchResponse)
        requires
            batch.len() > 0,
        ensures
            message@ == events_message(
                batch@.last().kv.mod_revision,
                old(self)@.watcher_id,
                all_sent(events_view(batch@), old(self)@.prev_kv),
            ),
            final(self)@ == (SessionView {
                max_event_stream_rev: if batch@.last().kv.mod_revision
                    > old(self)@.max_event_stream_rev {
                    batch@.last().kv.mod_revision
                } else {
                    old(self)@.max_event_stream_rev
                },
                ..old(self)@
            }),
    {
        let last_rev = batch[batch.len() - 1].kv.mod_revision;
        if last_rev > self.max_event_stream_rev {
            self.max_event_stream_rev = last_rev;
        }
        WatchResponse {
            revision: last_rev,
            watch_id: self.watcher_id,
            created: false,
            compact_revision: 0,
            events: to_events(batch, self.prev_kv),
        }
    }

    /// Answers what the client's side of the stream delivered.  A failure
    /// of the stream and a request to cancel this watch take the watcher
    /// out of the store and end the session.  A request for progress is
    /// answered with the later of the revision that the notifier has
    /// published, `progress_rev`, and the last revision that was sent.
    /// Everything else is ignored.
    pub fn on_client_message(&self, store: &mut Store, msg: ClientMessage, progress_rev: i64) -> (step:
        SessionStep)
        requires
            old(store).wf(),
        ensures
            final(store).wf(),
            match msg {
                ClientMessage::Failed => step is Close && final(store)@ == old(store)@.unwatch(
                    self@.key,
                    self@.watcher_id,
                ),
                ClientMessage::Request(WatchRequest::Cancel { watch_id }) if watch_id
                    == self@.watcher_id => step is Close && final(store)@ == old(store)@.unwatch(
                    self@.key,
                    self@.watcher_id,
                ),
                ClientMessage::Request(WatchRequest::Progress) => final(store)@ == old(store)@ && (
                step matches SessionStep::Reply(m) && m@ == events_message(
                    if progress_rev > self@.max_event_stream_rev {
                        progress_rev
                    } else {
                        self@.max_event_stream_rev
                    },
                    self@.watcher_id,
                    Seq::empty(),
                )),
                _ => step is Ignore && final(store)@ == old(store)@,
            },
    {
        match msg {
            ClientMessage::Failed => {
                store.unwatch(self.key.clone(), self.watcher_id);
                SessionStep::Close
            },
            ClientMessage::End => SessionStep::Ignore,
            ClientMessage::Request(request) => match request {
                WatchRequest::Cancel { watch_id } => {
                    if watch_id == self.watcher_id {
                        store.unwatch(self.key.clone(), self.watcher_id);
                        SessionStep::Close
                    } else {
                        SessionStep::Ignore
                    }
                },
                WatchRequest::Progress => {
                    let progress_revision = if progress_rev > self.max_event_stream_rev {
                        progress_rev
                    } else {
                        self.max_event_stream_rev
                    };
                    let m = WatchResponse {
                        revision: progress_revision,
                        watch_id: self.watcher_id,
                        created: false,
                        compact_revision: 0,
                        events: Vec::new(),
                    };
                    assert(m@.events =~= Seq::<SentEventView>::empty());
                    SessionStep::Reply(m)
                },
                _ => SessionStep::Ignore,
            },
        }
    }
}

} // verus!
