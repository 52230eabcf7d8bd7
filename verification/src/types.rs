//! The values that the store holds and hands out.

use crate::buffer::{bytes_clone, bytes_empty, bytes_view};
use bytes::Bytes;
use vstd::prelude::*;

verus! {

/// One version of a key: the revisions that describe it and the bytes that
/// were written.  `value == None` marks a deletion.
#[derive(Debug)]
pub struct Value {
    pub create_revision: i64,
    pub mod_revision: i64,
    pub version: i64,
    pub value: Option<Bytes>,
}

/// Mathematical model of a [`Value`].
pub struct ValueView {
    pub create_revision: i64,
    pub mod_revision: i64,
    pub version: i64,
    pub value: Option<Seq<u8>>,
}

impl View for Value {
    type V = ValueView;

    open spec fn view(&self) -> ValueView {
        ValueView {
            create_revision: self.create_revision,
            mod_revision: self.mod_revision,
            version: self.version,
            value: match self.value {
                Some(b) => Some(bytes_view(b)),
                None => None,
            },
        }
    }
}

impl Clone for Value {
    fn clone(&self) -> (r: Self)
        ensures
            r@ == self@,
    {
        Value {
            create_revision: self.create_revision,
            mod_revision: self.mod_revision,
            version: self.version,
            value: match &self.value {
                Some(b) => Some(bytes_clone(b)),
                None => None,
            },
        }
    }
}

/// A key with one of its versions, as clients see it.
#[derive(Debug)]
pub struct KeyValue {
    pub key: Vec<u8>,
    pub create_revision: i64,
    pub mod_revision: i64,
    pub version: i64,
    pub value: Bytes,
    pub lease: i64,
}

/// Mathematical model of a [`KeyValue`].
pub struct KeyValueView {
    pub key: Seq<u8>,
    pub create_revision: i64,
    pub mod_revision: i64,
    pub version: i64,
    pub value: Seq<u8>,
    pub lease: i64,
}

impl View for KeyValue {
    type V = KeyValueView;

    open spec fn view(&self) -> KeyValueView {
        KeyValueView {
            key: self.key@,
            create_revision: self.create_revision,
            mod_revision: self.mod_revision,
            version: self.version,
            value: bytes_view(self.value),
            lease: self.lease,
        }
    }
}

impl Clone for KeyValue {
    fn clone(&self) -> (r: Self)
        ensures
            r@ == self@,
    {
        KeyValue {
            key: self.key.clone(),
            create_revision: self.create_revision,
            mod_revision: self.mod_revision,
            version: self.version,
            value: bytes_clone(&self.value),
            lease: self.lease,
        }
    }
}

/// What clients see of the version `v` of `key`: a deletion shows no value,
/// version 0 and create revision 0, and keeps the revision of the deletion.
pub open spec fn project(v: ValueView, key: Seq<u8>) -> KeyValueView {
    KeyValueView {
        key,
        create_revision: if v.value is None {
            0
        } else {
            v.create_revision
        },
        mod_revision: v.mod_revision,
        version: if v.value is None {
            0
        } else {
            v.version
        },
        value: match v.value {
            Some(b) => b,
            None => Seq::empty(),
        },
        lease: 0,
    }
}

/// The client's view of the version `v` of `key`.
pub fn as_mvcc_key_value(v: Value, key: &Vec<u8>) -> (kv: KeyValue)
    ensures
        kv@ == project(v@, key@),
{
    let is_deleted = v.value.is_none();
    KeyValue {
        key: key.clone(),
        value: match v.value {
            Some(b) => b,
            None => bytes_empty(),
        },
        create_revision: if is_deleted {
            0
        } else {
            v.create_revision
        },
        mod_revision: v.mod_revision,
        version: if is_deleted {
            0
        } else {
            v.version
        },
        lease: 0,
    }
}

/// A change to a key, with the version that it replaced where that is known
/// and was asked for.
#[derive(Debug)]
pub struct KeyValueWithPrev {
    pub prev_kv: Option<KeyValue>,
    pub kv: KeyValue,
}

/// Mathematical model of a [`KeyValueWithPrev`].
pub struct EventView {
    pub prev_kv: Option<KeyValueView>,
    pub kv: KeyValueView,
}

/// Mathematical model of an optional [`KeyValue`].
pub open spec fn opt_kv_view(o: Option<KeyValue>) -> Option<KeyValueView> {
    match o {
        Some(kv) => Some(kv@),
        None => None,
    }
}

/// Mathematical model of a list of [`KeyValue`]s.
pub open spec fn kvs_view(kvs: Seq<KeyValue>) -> Seq<KeyValueView> {
    kvs.map_values(|kv: KeyValue| kv@)
}

/// Mathematical model of a list of changes.
pub open spec fn events_view(events: Seq<KeyValueWithPrev>) -> Seq<EventView> {
    events.map_values(|e: KeyValueWithPrev| e@)
}

impl View for KeyValueWithPrev {
    type V = EventView;

    open spec fn view(&self) -> EventView {
        EventView { prev_kv: opt_kv_view(self.prev_kv), kv: self.kv@ }
    }
}

impl Clone for KeyValueWithPrev {
    fn clone(&self) -> (r: Self)
        ensures
            r@ == self@,
    {
        KeyValueWithPrev {
            prev_kv: match &self.prev_kv {
                Some(kv) => Some(kv.clone()),
                None => None,
            },
            kv: self.kv.clone(),
        }
    }
}

/// Mathematical model of an optional buffer.
pub open spec fn opt_bytes_view(o: Option<Bytes>) -> Option<Seq<u8>> {
    match o {
        Some(b) => Some(bytes_view(b)),
        None => None,
    }
}

/// Mathematical model of the answer to a write.
pub open spec fn set_answer_view(r: Result<i64, (i64, Option<KeyValue>)>) -> Result<
    i64,
    (i64, Option<KeyValueView>),
> {
    match r {
        Ok(rev) => Ok(rev),
        Err((rev, kv)) => Err((rev, opt_kv_view(kv))),
    }
}

/// Conditions that a write places on the current state of its key.
#[derive(Debug, Clone, Copy)]
pub struct SetRequired {
    /// The key's `mod_revision` must equal this; 0 asks that the key does
    /// not exist.
    pub required_last_revision: Option<i64>,
    /// The key's `version` must equal this; 0 asks that the key does not
    /// exist.
    pub required_version: Option<i64>,
}

impl Default for SetRequired {
    fn default() -> (r: Self)
        ensures
            r.required_last_revision is None,
            r.required_version is None,
    {
        SetRequired { required_last_revision: None, required_version: None }
    }
}

/// The required `mod_revision`, or -1 where none is asked for.
pub open spec fn wanted_revision(required: Option<SetRequired>) -> i64 {
    match required {
        Some(SetRequired { required_last_revision: Some(r), .. }) => r,
        _ => -1i64,
    }
}

/// The required `version`, or -1 where none is asked for.
pub open spec fn wanted_version(required: Option<SetRequired>) -> i64 {
    match required {
        Some(SetRequired { required_version: Some(v), .. }) => v,
        _ => -1i64,
    }
}

/// The answer to a range read.
#[derive(Debug)]
pub struct RangeResult {
    pub kvs: Vec<KeyValue>,
    pub latest_rev: i64,
    pub count: i64,
}

/// Mathematical model of a [`RangeResult`].
pub struct RangeResultView {
    pub kvs: Seq<KeyValueView>,
    pub latest_rev: i64,
    pub count: i64,
}

impl View for RangeResult {
    type V = RangeResultView;

    open spec fn view(&self) -> RangeResultView {
        RangeResultView { kvs: kvs_view(self.kvs@), latest_rev: self.latest_rev, count: self.count }
    }
}

/// Mathematical model of the answer to a range read.
pub open spec fn range_answer_view(r: Result<RangeResult, StoreError>) -> Result<
    RangeResultView,
    StoreError,
> {
    match r {
        Ok(x) => Ok(x@),
        Err(e) => Err(e),
    }
}

/// Mathematical model of the answer to a watch.
pub open spec fn watch_answer_view(r: Result<(Vec<KeyValueWithPrev>, i64), i64>) -> Result<
    (Seq<EventView>, i64),
    i64,
> {
    match r {
        Ok((events, id)) => Ok((events_view(events@), id)),
        Err(floor) => Err(floor),
    }
}

/// Why the store refused a request.
#[derive(Debug, Clone, Copy, PartialEq, Eq, Structural)]
pub enum StoreError {
    /// The revision asked for lies beyond the current one.
    FutureRev,
    /// The revision asked for has been compacted away.
    Compacted,
    /// The two ends of a range lie in different prefixes.
    PrefixMismatch,
    /// The revision log could not be cut at the revision asked for.
    CompactFailed,
}

/// The class of a [`StoreError`], as it is reported to clients.
#[derive(Debug, Clone, Copy, PartialEq, Eq, Structural)]
pub enum ErrorCode {
    InvalidArgument,
    OutOfRange,
    Internal,
}

impl StoreError {
    pub open spec fn code_spec(self) -> ErrorCode {
        match self {
            StoreError::FutureRev => ErrorCode::OutOfRange,
            StoreError::Compacted => ErrorCode::OutOfRange,
            StoreError::PrefixMismatch => ErrorCode::InvalidArgument,
            StoreError::CompactFailed => ErrorCode::Internal,
        }
    }

    /// The class under which the error is reported.
    pub fn code(&self) -> (c: ErrorCode)
        ensures
            c == self.code_spec(),
    {
        match self {
            StoreError::FutureRev => ErrorCode::OutOfRange,
            StoreError::Compacted => ErrorCode::OutOfRange,
            StoreError::PrefixMismatch => ErrorCode::InvalidArgument,
            StoreError::CompactFailed => ErrorCode::Internal,
        }
    }

    pub open spec fn message_spec(self) -> Seq<char> {
        match self {
            StoreError::FutureRev => "etcdserver: mvcc: required revision is a future revision"@,
            StoreError::Compacted => "etcdserver: mvcc: required revision has been compacted"@,
            StoreError::PrefixMismatch => "Keys must be in the same prefix"@,
            StoreError::CompactFailed => "etcdserver: mvcc: compact failed"@,
        }
    }

    /// The text with which the error is reported.
    pub fn message(&self) -> (m: &'static str)
        ensures
            m@ == self.message_spec(),
    {
        match self {
            StoreError::FutureRev => "etcdserver: mvcc: required revision is a future revision",
            StoreError::Compacted => "etcdserver: mvcc: required revision has been compacted",
            StoreError::PrefixMismatch => "Keys must be in the same prefix",
            StoreError::CompactFailed => "etcdserver: mvcc: compact failed",
        }
    }
}

} // verus!
