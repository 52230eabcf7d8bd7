//! The key-value service: reads, writes, deletions, conditional writes and
//! compaction, as requests against the store.

use crate::buffer::bytes_from_vec;
use crate::lex::{lex_order, Order};
use crate::store::Store;
use crate::types::{
    kvs_view, opt_kv_view, ErrorCode, KeyValue, KeyValueView, RangeResultView, SetRequired,
    StoreError,
};
use vstd::prelude::*;

verus! {

#[derive(Debug)]
pub struct RangeRequest {
    pub key: Vec<u8>,
    /// Empty to read `key` alone.
    pub range_end: Vec<u8>,
    /// The most keys to return; 0 for all.
    pub limit: i64,
    /// The revision to read at; 0 for the current one.
    pub revision: i64,
    /// Count the keys, return none.
    pub count_only: bool,
}

#[derive(Debug)]
pub struct RangeResponse {
    /// The revision in the header.
    pub revision: i64,
    pub kvs: Vec<KeyValue>,
    pub count: i64,
    pub more: bool,
}

pub struct RangeResponseView {
    pub revision: i64,
    pub kvs: Seq<KeyValueView>,
    pub count: i64,
    pub more: bool,
}

impl View for RangeResponse {
    type V = RangeResponseView;

    open spec fn view(&self) -> RangeResponseView {
        RangeResponseView {
            revision: self.revision,
            kvs: kvs_view(self.kvs@),
            count: self.count,
            more: self.more,
        }
    }
}

#[derive(Debug)]
pub struct PutRequest {
    pub key: Vec<u8>,
    pub value: Vec<u8>,
}

#[derive(Debug, PartialEq, Eq)]
pub struct PutResponse {
    /// The revision in the header: that of the write.
    pub revision: i64,
}

#[derive(Debug)]
pub struct DeleteRangeRequest {
    pub key: Vec<u8>,
    pub range_end: Vec<u8>,
}

#[derive(Debug, PartialEq, Eq)]
pub struct DeleteRangeResponse {
    /// The revision in the header.
    pub revision: i64,
    pub deleted: i64,
}

#[derive(Debug, PartialEq, Eq)]
pub struct CompactionResponse {
    /// The revision in the header.
    pub revision: i64,
}

/// What a conditional write compares.
#[derive(Debug, Clone, Copy, PartialEq, Eq)]
pub enum CompareTarget {
    ModRevision(i64),
    Version(i64),
    /// Another target.
    Other,
}

#[derive(Debug)]
pub struct Compare {
    pub key: Vec<u8>,
    pub target: CompareTarget,
}

/// One operation of a conditional write.
#[derive(Debug)]
pub enum RequestOp {
    Range(RangeRequest),
    Put(PutRequest),
    DeleteRange(DeleteRangeRequest),
    /// A nested conditional write.
    Txn,
    /// An operation without content.
    Unset,
}

#[derive(Debug)]
pub struct TxnRequest {
    pub compare: Vec<Compare>,
    pub success: Vec<RequestOp>,
    pub failure: Vec<RequestOp>,
}

#[derive(Debug)]
pub enum ResponseOp {
    Range(RangeResponse),
    Put(PutResponse),
    DeleteRange(DeleteRangeResponse),
}

pub enum ResponseOpView {
    Range(RangeResponseView),
    Put(i64),
    DeleteRange(i64, i64),
}

impl View for ResponseOp {
    type V = ResponseOpView;

    open spec fn view(&self) -> ResponseOpView {
        match self {
            ResponseOp::Range(r) => ResponseOpView::Range(r@),
            ResponseOp::Put(r) => ResponseOpView::Put(r.revision),
            ResponseOp::DeleteRange(r) => ResponseOpView::DeleteRange(r.revision, r.deleted),
        }
    }
}

#[derive(Debug)]
pub struct TxnResponse {
    /// The revision in the header.
    pub revision: i64,
    pub succeeded: bool,
    pub responses: Vec<ResponseOp>,
}

pub struct TxnResponseView {
    pub revision: i64,
    pub succeeded: bool,
    pub responses: Seq<ResponseOpView>,
}

impl View for TxnResponse {
    type V = TxnResponseView;

    open spec fn view(&self) -> TxnResponseView {
        TxnResponseView {
            revision: self.revision,
            succeeded: self.succeeded,
            responses: self.responses@.map_values(|r: ResponseOp| r@),
        }
    }
}

/// Why a request was refused.
#[derive(Debug, Clone, Copy, PartialEq, Eq, Structural)]
pub enum KvError {
    /// The store refused the read.
    Store(StoreError),
    /// The key to delete does not exist.
    DeleteFailed,
    CompactFailed,
    /// A deletion names a range.
    DeleteRangeEnd,
    /// A conditional write has not exactly one comparison.
    OneCompare,
    /// The comparison is neither of the revision nor of the version.
    Target,
    /// A conditional write has not exactly one operation on success.
    OneSuccess,
    /// A conditional write has more than one operation on failure.
    OneFailure,
    /// The read on failure is of another key than the comparison.
    FailureKey,
    /// The read on failure names a range.
    FailureRangeEnd,
    /// The operation on failure is not a read.
    FailureKind,
    PutKeyRequired,
    /// The write on success is of another key than the comparison.
    PutKey,
    DeleteKeyRequired,
    /// The deletion on success is of another key than the comparison.
    DeleteKey,
    /// The operation on success is neither a write nor a deletion.
    SuccessKind,
}

impl KvError {
    pub open spec fn code_spec(self) -> ErrorCode {
        match self {
            KvError::Store(e) => e.code_spec(),
            KvError::DeleteFailed => ErrorCode::Internal,
            KvError::CompactFailed => ErrorCode::Internal,
            _ => ErrorCode::InvalidArgument,
        }
    }

    /// The class under which the error is reported.
    pub fn code(&self) -> (c: ErrorCode)
        ensures
            c == self.code_spec(),
    {
        match self {
            KvError::Store(e) => e.code(),
            KvError::DeleteFailed => ErrorCode::Internal,
            KvError::CompactFailed => ErrorCode::Internal,
            _ => ErrorCode::InvalidArgument,
        }
    }

    pub open spec fn message_spec(self) -> Seq<char> {
        match self {
            KvError::Store(e) => e.message_spec(),
            KvError::DeleteFailed => "Delete operation failed"@,
            KvError::CompactFailed => "Compaction operation failed"@,
            KvError::DeleteRangeEnd => "range end not supported in deleteRange"@,
            KvError::OneCompare => "only one compare supported"@,
            KvError::Target => "only MOD or VERSION target supported"@,
            KvError::OneSuccess => "only one success supported"@,
            KvError::OneFailure => "only one failure supported"@,
            KvError::FailureKey => "compare key must match failure key"@,
            KvError::FailureRangeEnd => "range end not supported in failure"@,
            KvError::FailureKind => "only range supported in failure"@,
            KvError::PutKeyRequired => "key required in success put"@,
            KvError::PutKey => "compare key must match put key"@,
            KvError::DeleteKeyRequired => "key required in success deleteRange"@,
            KvError::DeleteKey => "compare key must match deleteRange key"@,
            KvError::SuccessKind => "only put and deleteRange supported in success"@,
        }
    }

    /// The text with which the error is reported.
    pub fn message(&self) -> (m: &'static str)
        ensures
            m@ == self.message_spec(),
    {
        match self {
            KvError::Store(e) => e.message(),
            KvError::DeleteFailed => "Delete operation failed",
            KvError::CompactFailed => "Compaction operation failed",
            KvError::DeleteRangeEnd => "range end not supported in deleteRange",
            KvError::OneCompare => "only one compare supported",
            KvError::Target => "only MOD or VERSION target supported",
            KvError::OneSuccess => "only one success supported",
            KvError::OneFailure => "only one failure supported",
            KvError::FailureKey => "compare key must match failure key",
            KvError::FailureRangeEnd => "range end not supported in failure",
            KvError::FailureKind => "only range supported in failure",
            KvError::PutKeyRequired => "key required in success put",
            KvError::PutKey => "compare key must match put key",
            KvError::DeleteKeyRequired => "key required in success deleteRange",
            KvError::DeleteKey => "compare key must match deleteRange key",
            KvError::SuccessKind => "only put and deleteRange supported in success",
        }
    }
}

/// The limit that a read hands to the store: none of the keys where only
/// the count is asked for, all of them where the limit is 0 or below.
pub open spec fn limit_of(limit: i64, count_only: bool) -> Option<usize> {
    if count_only {
        Some(0usize)
    } else if limit <= 0 {
        None
    } else if limit > usize::MAX {
        Some(usize::MAX)
    } else {
        Some(limit as usize)
    }
}

/// The answer to a read, made of the store's.
pub open spec fn range_response(
    found: Result<RangeResultView, StoreError>,
    limit: i64,
    count_only: bool,
) -> Result<RangeResponseView, KvError> {
    match found {
        Err(e) => Err(KvError::Store(e)),
        Ok(x) => Ok(
            RangeResponseView {
                revision: x.latest_rev,
                kvs: x.kvs,
                count: x.count,
                more: !count_only && limit != 0 && x.count > limit,
            },
        ),
    }
}

/// Mathematical model of the answer to a read.
pub open spec fn range_response_view(r: Result<RangeResponse, KvError>) -> Result<
    RangeResponseView,
    KvError,
> {
    match r {
        Ok(x) => Ok(x@),
        Err(e) => Err(e),
    }
}

/// Mathematical model of the answer to a conditional write.
pub open spec fn txn_response_view(r: Result<TxnResponse, KvError>) -> Result<
    TxnResponseView,
    KvError,
> {
    match r {
        Ok(x) => Ok(x@),
        Err(e) => Err(e),
    }
}

/// The condition that a comparison places on the write.
pub open spec fn required_by(target: CompareTarget) -> Option<SetRequired> {
    match target {
        CompareTarget::ModRevision(r) => Some(
            SetRequired { required_last_revision: Some(r), required_version: None },
        ),
        CompareTarget::Version(v) => Some(
            SetRequired { required_last_revision: None, required_version: Some(v) },
        ),
        CompareTarget::Other => None,
    }
}

/// Why the operation on failure is refused, if it is: it may only be a
/// read of the key of the comparison.
pub open spec fn failure_refusal(op: RequestOp, key: Seq<u8>) -> Option<KvError> {
    match op {
        RequestOp::Unset => None,
        RequestOp::Range(r) => if r.key@ != key {
            Some(KvError::FailureKey)
        } else if r.range_end@.len() != 0 {
            Some(KvError::FailureRangeEnd)
        } else {
            None
        },
        _ => Some(KvError::FailureKind),
    }
}

/// Why the operation on success is refused, if it is: it may only be a
/// write or a deletion of the key of the comparison.
pub open spec fn success_refusal(op: RequestOp, key: Seq<u8>) -> Option<KvError> {
    match op {
        RequestOp::Put(p) => if p.key@.len() == 0 {
            Some(KvError::PutKeyRequired)
        } else if p.key@ != key {
            Some(KvError::PutKey)
        } else {
            None
        },
        RequestOp::DeleteRange(d) => if d.key@.len() == 0 {
            Some(KvError::DeleteKeyRequired)
        } else if d.range_end@.len() != 0 {
            Some(KvError::DeleteRangeEnd)
        } else if d.key@ != key {
            Some(KvError::DeleteKey)
        } else {
            None
        },
        _ => Some(KvError::SuccessKind),
    }
}

/// Mathematical model of a [`TxnRequest`]: what its checks and its write
/// depend on.
pub struct TxnRequestView {
    pub compare: Seq<Compare>,
    pub success: Seq<RequestOp>,
    pub failure: Seq<RequestOp>,
}

impl View for TxnRequest {
    type V = TxnRequestView;

    open spec fn view(&self) -> TxnRequestView {
        TxnRequestView { compare: self.compare@, success: self.success@, failure: self.failure@ }
    }
}

impl TxnRequestView {
    /// Why a conditional write is refused before it reaches the store, if
    /// it is.  The checks are made in this order: one comparison, of the
    /// revision or the version; one operation on success; at most one on
    /// failure, a read of the compared key; and the operation on success a
    /// write or a deletion of the compared key.
    pub open spec fn refusal(self) -> Option<KvError> {
        if self.compare.len() != 1 {
            Some(KvError::OneCompare)
        } else if self.compare[0].target == CompareTarget::Other {
            Some(KvError::Target)
        } else if self.success.len() != 1 {
            Some(KvError::OneSuccess)
        } else if self.failure.len() > 1 {
            Some(KvError::OneFailure)
        } else if self.failure.len() == 1 && failure_refusal(self.failure[0], self.compare[0].key@)
            is Some {
            failure_refusal(self.failure[0], self.compare[0].key@)
        } else {
            success_refusal(self.success[0], self.compare[0].key@)
        }
    }

    /// The value that the operation on success writes; `None` for a
    /// deletion.
    pub open spec fn value(self) -> Option<Seq<u8>> {
        match self.success[0] {
            RequestOp::Put(p) => Some(p.value@),
            _ => None,
        }
    }

    /// The answer to a conditional write that reached the store, made of
    /// the store's answer.  A write that went through is answered with its
    /// revision; one that was refused with the current revision and, where
    /// an operation on failure was given, the current version of the key.
    pub open spec fn response(self, answer: Result<i64, (i64, Option<KeyValueView>)>) -> TxnResponseView {
        match answer {
            Ok(rev) => TxnResponseView {
                revision: rev,
                succeeded: true,
                responses: seq![
                    if self.value() is Some {
                        ResponseOpView::Put(rev)
                    } else {
                        ResponseOpView::DeleteRange(rev, 0)
                    },
                ],
            },
            Err((rev, kv)) => TxnResponseView {
                revision: rev,
                succeeded: false,
                responses: if self.failure.len() == 0 {
                    Seq::empty()
                } else {
                    seq![
                        ResponseOpView::Range(
                            RangeResponseView {
                                revision: rev,
                                kvs: match kv {
                                    Some(x) => seq![x],
                                    None => Seq::empty(),
                                },
                                count: 1,
                                more: false,
                            },
                        ),
                    ]
                },
            },
        }
    }
}

fn same_key(a: &Vec<u8>, b: &Vec<u8>) -> (r: bool)
    ensures
        r == (a@ == b@),
{
    lex_order(a.as_slice(), b.as_slice()) == Order::Same
}

pub struct KvService;

impl KvService {
    /// Reads a key or a range of keys.
    pub fn range(store: &Store, req: RangeRequest) -> (r: Result<RangeResponse, KvError>)
        requires
            store.wf(),
            req.revision >= 0,
        ensures
            range_response_view(r) == range_response(
                store@.range(
                    req.key@,
                    req.range_end@,
                    req.revision,
                    limit_of(req.limit, req.count_only),
                ),
                req.limit,
                req.count_only,
            ),
    {
        let limit: Option<usize> = if req.count_only {
            Some(0)
        } else if req.limit <= 0 {
            None
        } else if req.limit as u64 > usize::MAX as u64 {
            Some(usize::MAX)
        } else {
            Some(req.limit as usize)
        };
        match store.range(req.key, req.range_end, req.revision, limit) {
            Ok(found) => {
                let more = if req.count_only || req.limit == 0 {
                    false
                } else {
                    found.count > req.limit
                };
                Ok(
                    RangeResponse {
                        revision: found.latest_rev,
                        count: found.count,
                        kvs: found.kvs,
                        more,
                    },
                )
            },
            Err(e) => Err(KvError::Store(e)),
        }
    }

    /// Writes a value to a key, whatever the key holds; this cannot fail.
    pub fn put(store: &mut Store, req: PutRequest) -> (r: PutResponse)
        requires
            old(store).wf(),
            old(store)@.can_grow(),
        ensures
            final(store).wf(),
            final(store)@ == old(store)@.after_set(req.key@, Some(req.value@)),
            r == (PutResponse { revision: (old(store)@.latest() + 1) as i64 }),
    {
        match store.set(req.key, Some(bytes_from_vec(req.value)), None) {
            Ok(rev) => PutResponse { revision: rev },
            Err(_) => unreached(),
        }
    }

    /// Deletes a key.  Fails where the request names a range, and where
    /// the key does not exist.
    pub fn delete_range(store: &mut Store, req: DeleteRangeRequest) -> (r: Result<
        DeleteRangeResponse,
        KvError,
    >)
        requires
            old(store).wf(),
            old(store)@.can_grow(),
        ensures
            final(store).wf(),
            r == if req.range_end@.len() != 0 {
                Err::<DeleteRangeResponse, KvError>(KvError::DeleteRangeEnd)
            } else if !old(store)@.is_live(req.key@) {
                Err(KvError::DeleteFailed)
            } else {
                Ok(DeleteRangeResponse { revision: 0, deleted: 1 })
            },
            final(store)@ == if r is Ok {
                old(store)@.after_set(req.key@, None)
            } else {
                old(store)@
            },
    {
        if req.range_end.len() != 0 {
            return Err(KvError::DeleteRangeEnd);
        }
        match store.delete(req.key, None) {
            Ok(_) => Ok(DeleteRangeResponse { revision: 0, deleted: 1 }),
            Err(_) => Err(KvError::DeleteFailed),
        }
    }

    /// Writes or deletes one key if it is at the revision or the version
    /// that the request compares it with.
    pub fn txn(store: &mut Store, req: TxnRequest) -> (r: Result<TxnResponse, KvError>)
        requires
            old(store).wf(),
            old(store)@.can_grow(),
            req.success.len() == 1 ==> !(req.success[0] is Unset),
        ensures
            final(store).wf(),
            match req@.refusal() {
                Some(e) => r == Err::<TxnResponse, KvError>(e) && final(store)@ == old(store)@,
                None => {
                    let write = old(store)@.set(
                        req.compare[0].key@,
                        req@.value(),
                        required_by(req.compare[0].target),
                    );
                    final(store)@ == write.0 && txn_response_view(r) == Ok::<
                        TxnResponseView,
                        KvError,
                    >(req@.response(write.1))
                },
            },
    {
        let ghost view = req@;
        let mut req = req;
        if req.compare.len() != 1 {
            return Err(KvError::OneCompare);
        }
        let required: Option<SetRequired> = match req.compare[0].target {
            CompareTarget::ModRevision(mod_revision) => Some(
                SetRequired { required_last_revision: Some(mod_revision), required_version: None },
            ),
            CompareTarget::Version(version) => Some(
                SetRequired { required_last_revision: None, required_version: Some(version) },
            ),
            CompareTarget::Other => {
                return Err(KvError::Target);
            },
        };
        if req.success.len() != 1 {
            return Err(KvError::OneSuccess);
        }
        if req.failure.len() > 1 {
            return Err(KvError::OneFailure);
        }
        if req.failure.len() != 0 {
            match &req.failure[0] {
                RequestOp::Unset => {},
                RequestOp::Range(range_req) => {
                    if !same_key(&range_req.key, &req.compare[0].key) {
                        return Err(KvError::FailureKey);
                    }
                    if range_req.range_end.len() != 0 {
                        return Err(KvError::FailureRangeEnd);
                    }
                },
                _ => {
                    return Err(KvError::FailureKind);
                },
            }
        }
        let has_failure = req.failure.len() != 0;
        let success_req = req.success.pop().unwrap();
        assert(success_req == view.success[0]);
        let success_is_delete: bool;
        let result = match success_req {
            RequestOp::Put(put) => {
                success_is_delete = false;
                if put.key.len() == 0 {
                    return Err(KvError::PutKeyRequired);
                }
                if !same_key(&put.key, &req.compare[0].key) {
                    return Err(KvError::PutKey);
                }
                store.set(put.key, Some(bytes_from_vec(put.value)), required)
            },
            RequestOp::DeleteRange(delete_range) => {
                success_is_delete = true;
                if delete_range.key.len() == 0 {
                    return Err(KvError::DeleteKeyRequired);
                }
                if delete_range.range_end.len() != 0 {
                    return Err(KvError::DeleteRangeEnd);
                }
                if !same_key(&delete_range.key, &req.compare[0].key) {
                    return Err(KvError::DeleteKey);
                }
                store.set(delete_range.key, None, required)
            },
            _ => {
                return Err(KvError::SuccessKind);
            },
        };
        assert(success_is_delete == (view.value() is None));
        match result {
            Err((rev, kv)) => {
                let ghost kvv = opt_kv_view(kv);
                let ghost want = view.response(Err((rev, kvv)));
                let mut responses: Vec<ResponseOp> = Vec::new();
                if has_failure {
                    let mut kvs: Vec<KeyValue> = Vec::new();
                    match kv {
                        Some(x) => {
                            kvs.push(x);
                            assert(kvs_view(kvs@) =~= seq![x@]);
                        },
                        None => {
                            assert(kvs_view(kvs@) =~= Seq::<KeyValueView>::empty());
                        },
                    }
                    let op = ResponseOp::Range(
                        RangeResponse { revision: rev, count: 1, kvs, more: false },
                    );
                    assert(op@ == want.responses[0]);
                    responses.push(op);
                    assert(responses@.map_values(|r: ResponseOp| r@) =~= want.responses);
                } else {
                    assert(responses@.map_values(|r: ResponseOp| r@) =~= want.responses);
                }
                Ok(TxnResponse { revision: rev, responses, succeeded: false })
            },
            Ok(rev) => {
                let ghost want = view.response(Ok(rev));
                let mut responses: Vec<ResponseOp> = Vec::new();
                if success_is_delete {
                    responses.push(
                        ResponseOp::DeleteRange(DeleteRangeResponse { revision: rev, deleted: 0 }),
                    );
                } else {
                    responses.push(ResponseOp::Put(PutResponse { revision: rev }));
                }
                assert(responses@.map_values(|r: ResponseOp| r@) =~= want.responses);
                Ok(TxnResponse { revision: rev, responses, succeeded: true })
            },
        }
    }

    /// Drops the revisions below the one asked for from the log.
    pub fn compact(store: &mut Store, revision: i64) -> (r: Result<CompactionResponse, KvError>)
        requires
            old(store).wf(),
        ensures
            final(store).wf(),
            final(store)@ == old(store)@.compact(revision),
            r == if old(store)@.compact_answer(revision) is Ok {
                Ok::<CompactionResponse, KvError>(CompactionResponse { revision: 0 })
            } else {
                Err(KvError::CompactFailed)
            },
    {
        match store.compact(revision) {
            Ok(_) => Ok(CompactionResponse { revision: 0 }),
            Err(_) => Err(KvError::CompactFailed),
        }
    }
}

} // verus!
