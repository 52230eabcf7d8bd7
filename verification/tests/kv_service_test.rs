use bytes::Bytes;
use mem_etcd::kv_service::{
    Compare, CompareTarget, DeleteRangeRequest, KvError, KvService, PutRequest, RangeRequest,
    RequestOp, ResponseOp, TxnRequest,
};
use mem_etcd::store::Store;
use mem_etcd::types::{ErrorCode, StoreError};

fn put_req(key: &[u8], value: &[u8]) -> PutRequest {
    PutRequest { key: key.to_vec(), value: value.to_vec() }
}

fn range_req(key: &[u8], range_end: &[u8]) -> RangeRequest {
    RangeRequest {
        key: key.to_vec(),
        range_end: range_end.to_vec(),
        limit: 0,
        revision: 0,
        count_only: false,
    }
}

#[test]
fn test_put_and_range() {
    let mut store = Store::new(None);

    // Test Put
    let put_response = KvService::put(&mut store, put_req(b"foo", b"bar"));
    assert_eq!(put_response.revision, 1);

    // Test Range
    let response = KvService::range(&store, range_req(b"foo", b"")).unwrap();
    assert_eq!(response.kvs.len(), 1);
    assert_eq!(response.count, 1);
    assert_eq!(response.kvs[0].key, b"foo");
    assert_eq!(response.kvs[0].value, b"bar".to_vec());
}

#[test]
fn test_delete_range() {
    let mut store = Store::new(None);

    // First put a key
    KvService::put(&mut store, put_req(b"foo", b"bar"));

    // Then delete it
    let delete_req = DeleteRangeRequest { key: b"foo".to_vec(), range_end: vec![] };
    let delete_response = KvService::delete_range(&mut store, delete_req).unwrap();
    assert_eq!(delete_response.deleted, 1);
    assert_eq!(delete_response.revision, 0);

    // Verify it's gone with a range request
    let range_response = KvService::range(&store, range_req(b"foo", b"")).unwrap();
    assert_eq!(range_response.kvs.len(), 0);
}

#[test]
fn test_range_count_only() {
    let mut store = Store::new(None);
    KvService::put(&mut store, put_req(b"foo", b"bar"));

    let mut req = range_req(b"foo", b"");
    req.count_only = true;
    let range_response = KvService::range(&store, req).unwrap();
    assert_eq!(range_response.count, 1);
    assert_eq!(range_response.kvs.len(), 0);
    assert!(!range_response.more);
}

#[test]
fn test_range_limit() {
    let mut store = Store::new(None);

    for i in 0..10 {
        KvService::put(&mut store, put_req(&[(b'a' + i)], &[b'r', i]));
    }

    let mut req = range_req(b"a", b"z");
    req.limit = 4;
    let range_response = KvService::range(&store, req).unwrap();
    assert_eq!(range_response.count, 10);
    assert_eq!(range_response.kvs.len(), 4);
    assert_eq!(range_response.more, true);

    let mut req = range_req(b"a", b"z");
    req.limit = 10;
    let range_response = KvService::range(&store, req).unwrap();
    assert_eq!(range_response.count, 10);
    assert_eq!(range_response.kvs.len(), 10);
    assert_eq!(range_response.more, false);

    let mut req = range_req(b"a", b"z");
    req.limit = 15;
    let range_response = KvService::range(&store, req).unwrap();
    assert_eq!(range_response.count, 10);
    assert_eq!(range_response.kvs.len(), 10);
    assert_eq!(range_response.more, false);
}

fn txn_put(key: &[u8], target: CompareTarget, value: &[u8], failure: Vec<RequestOp>) -> TxnRequest {
    TxnRequest {
        compare: vec![Compare { key: key.to_vec(), target }],
        success: vec![RequestOp::Put(put_req(key, value))],
        failure,
    }
}

#[test]
fn test_txn() {
    let mut store = Store::new(None);

    // First put a key
    let put_response = KvService::put(&mut store, put_req(b"foo", b"bar"));
    let rev = put_response.revision;

    // Create a transaction that checks modRevision
    let txn_req = txn_put(
        b"foo",
        CompareTarget::ModRevision(rev),
        b"baz",
        vec![RequestOp::Range(range_req(b"foo", b""))],
    );

    let txn_response = KvService::txn(&mut store, txn_req).unwrap();
    assert!(txn_response.succeeded);
    assert_eq!(txn_response.responses.len(), 1);
    assert_eq!(txn_response.revision, 2);
    match &txn_response.responses[0] {
        ResponseOp::Put(p) => assert_eq!(p.revision, 2),
        other => panic!("unexpected response {:?}", other),
    }
    let r = KvService::range(&store, range_req(b"foo", b"")).unwrap();
    assert_eq!(r.kvs[0].value, b"baz".to_vec());
}

#[test]
fn test_txn_failure() {
    let mut store = Store::new(None);

    // First put a key
    KvService::put(&mut store, put_req(b"foo", b"bar"));

    // mod is zero so this should fail; no failure response please
    let txn_req = txn_put(b"foo", CompareTarget::ModRevision(0), b"baz", vec![]);

    let txn_response = KvService::txn(&mut store, txn_req).unwrap();
    assert_eq!(txn_response.succeeded, false);
    assert_eq!(txn_response.responses.len(), 0);
    assert_eq!(txn_response.revision, 1);
}

#[test]
fn kv_service_test_test_compaction() {
    let mut store = Store::new(None);

    // Create some revisions
    KvService::put(&mut store, put_req(b"foo", b"bar1"));
    KvService::put(&mut store, put_req(b"foo", b"bar2"));

    // Compact at revision 2
    let compact_response = KvService::compact(&mut store, 2).unwrap();
    assert_eq!(compact_response.revision, 0);

    // Try to get revision 1 (should fail)
    let mut req = range_req(b"foo", b"");
    req.revision = 1;
    let range_result = KvService::range(&store, req);
    assert!(
        range_result.is_err(),
        "Expected error when requesting compacted revision"
    );
    assert_eq!(range_result.unwrap_err(), KvError::Store(StoreError::Compacted));
}

#[test]
fn txn_failure_with_read_returns_the_current_version() {
    let mut store = Store::new(None);
    KvService::put(&mut store, put_req(b"foo", b"bar"));
    let req = txn_put(
        b"foo",
        CompareTarget::ModRevision(0),
        b"baz",
        vec![RequestOp::Range(range_req(b"foo", b""))],
    );
    let r = KvService::txn(&mut store, req).unwrap();
    assert!(!r.succeeded);
    assert_eq!(r.revision, 1);
    assert_eq!(r.responses.len(), 1);
    match &r.responses[0] {
        ResponseOp::Range(x) => {
            assert_eq!(x.revision, 1);
            assert_eq!(x.count, 1);
            assert!(!x.more);
            assert_eq!(x.kvs.len(), 1);
            assert_eq!(x.kvs[0].value, Bytes::from_static(b"bar"));
            assert_eq!(x.kvs[0].mod_revision, 1);
        }
        other => panic!("unexpected response {:?}", other),
    }
    // a key that does not exist has no current version to return
    let req = txn_put(
        b"nope",
        CompareTarget::Version(3),
        b"baz",
        vec![RequestOp::Range(range_req(b"nope", b""))],
    );
    let r = KvService::txn(&mut store, req).unwrap();
    assert!(!r.succeeded);
    match &r.responses[0] {
        ResponseOp::Range(x) => {
            assert_eq!(x.count, 1);
            assert!(x.kvs.is_empty());
        }
        other => panic!("unexpected response {:?}", other),
    }
    assert_eq!(store.current_revision(), 1);
}

#[test]
fn txn_by_version_and_delete() {
    let mut store = Store::new(None);
    KvService::put(&mut store, put_req(b"k", b"1"));
    let r = KvService::txn(&mut store, txn_put(b"k", CompareTarget::Version(1), b"2", vec![])).unwrap();
    assert!(r.succeeded);
    assert_eq!(r.revision, 2);
    let req = TxnRequest {
        compare: vec![Compare { key: b"k".to_vec(), target: CompareTarget::Version(2) }],
        success: vec![RequestOp::DeleteRange(DeleteRangeRequest {
            key: b"k".to_vec(),
            range_end: vec![],
        })],
        failure: vec![RequestOp::Unset],
    };
    let r = KvService::txn(&mut store, req).unwrap();
    assert!(r.succeeded);
    assert_eq!(r.revision, 3);
    match &r.responses[0] {
        ResponseOp::DeleteRange(d) => {
            assert_eq!(d.revision, 3);
            assert_eq!(d.deleted, 0);
        }
        other => panic!("unexpected response {:?}", other),
    }
    // create only if absent
    let r = KvService::txn(&mut store, txn_put(b"k", CompareTarget::ModRevision(0), b"3", vec![])).unwrap();
    assert!(r.succeeded);
    assert_eq!(r.revision, 4);
}

#[test]
fn txn_requests_are_checked_in_order() {
    let mut store = Store::new(None);
    let ok = || txn_put(b"k", CompareTarget::ModRevision(0), b"v", vec![]);

    let mut req = ok();
    req.compare.clear();
    req.success.clear();
    assert_eq!(KvService::txn(&mut store, req).unwrap_err(), KvError::OneCompare);

    let mut req = ok();
    req.compare.push(Compare { key: b"k".to_vec(), target: CompareTarget::Version(0) });
    assert_eq!(KvService::txn(&mut store, req).unwrap_err(), KvError::OneCompare);

    let mut req = ok();
    req.compare[0].target = CompareTarget::Other;
    req.success.clear();
    assert_eq!(KvService::txn(&mut store, req).unwrap_err(), KvError::Target);

    let mut req = ok();
    req.success.clear();
    req.failure = vec![RequestOp::Txn, RequestOp::Txn];
    assert_eq!(KvService::txn(&mut store, req).unwrap_err(), KvError::OneSuccess);

    let mut req = ok();
    req.failure = vec![RequestOp::Txn, RequestOp::Txn];
    assert_eq!(KvService::txn(&mut store, req).unwrap_err(), KvError::OneFailure);

    let mut req = ok();
    req.failure = vec![RequestOp::Range(range_req(b"other", b"z"))];
    assert_eq!(KvService::txn(&mut store, req).unwrap_err(), KvError::FailureKey);

    let mut req = ok();
    req.failure = vec![RequestOp::Range(range_req(b"k", b"z"))];
    assert_eq!(KvService::txn(&mut store, req).unwrap_err(), KvError::FailureRangeEnd);

    let mut req = ok();
    req.failure = vec![RequestOp::Put(put_req(b"k", b"v"))];
    assert_eq!(KvService::txn(&mut store, req).unwrap_err(), KvError::FailureKind);

    let mut req = ok();
    req.success = vec![RequestOp::Put(put_req(b"", b"v"))];
    assert_eq!(KvService::txn(&mut store, req).unwrap_err(), KvError::PutKeyRequired);

    let mut req = ok();
    req.success = vec![RequestOp::Put(put_req(b"other", b"v"))];
    assert_eq!(KvService::txn(&mut store, req).unwrap_err(), KvError::PutKey);

    let del = |key: &[u8], end: &[u8]| {
        RequestOp::DeleteRange(DeleteRangeRequest { key: key.to_vec(), range_end: end.to_vec() })
    };
    let mut req = ok();
    req.success = vec![del(b"", b"z")];
    assert_eq!(KvService::txn(&mut store, req).unwrap_err(), KvError::DeleteKeyRequired);

    let mut req = ok();
    req.success = vec![del(b"other", b"z")];
    assert_eq!(KvService::txn(&mut store, req).unwrap_err(), KvError::DeleteRangeEnd);

    let mut req = ok();
    req.success = vec![del(b"other", b"")];
    assert_eq!(KvService::txn(&mut store, req).unwrap_err(), KvError::DeleteKey);

    let mut req = ok();
    req.success = vec![RequestOp::Range(range_req(b"k", b""))];
    assert_eq!(KvService::txn(&mut store, req).unwrap_err(), KvError::SuccessKind);

    let mut req = ok();
    req.success = vec![RequestOp::Txn];
    assert_eq!(KvService::txn(&mut store, req).unwrap_err(), KvError::SuccessKind);

    // nothing of this reached the store
    assert_eq!(store.current_revision(), 0);
    assert_eq!(KvError::SuccessKind.code(), ErrorCode::InvalidArgument);
    assert_eq!(KvError::OneCompare.message(), "only one compare supported");
    assert_eq!(KvError::Target.message(), "only MOD or VERSION target supported");
    assert_eq!(KvError::FailureKey.message(), "compare key must match failure key");
    assert_eq!(KvError::PutKey.message(), "compare key must match put key");
    assert_eq!(KvError::DeleteKey.message(), "compare key must match deleteRange key");
}

#[test]
fn delete_range_failures() {
    let mut store = Store::new(None);
    KvService::put(&mut store, put_req(b"k", b"v"));
    let req = DeleteRangeRequest { key: b"k".to_vec(), range_end: b"z".to_vec() };
    let e = KvService::delete_range(&mut store, req).unwrap_err();
    assert_eq!(e, KvError::DeleteRangeEnd);
    assert_eq!(e.code(), ErrorCode::InvalidArgument);
    assert_eq!(e.message(), "range end not supported in deleteRange");
    let req = DeleteRangeRequest { key: b"absent".to_vec(), range_end: vec![] };
    let e = KvService::delete_range(&mut store, req).unwrap_err();
    assert_eq!(e, KvError::DeleteFailed);
    assert_eq!(e.code(), ErrorCode::Internal);
    assert_eq!(store.current_revision(), 1);
}

#[test]
fn compact_failures_are_internal() {
    let mut store = Store::new(None);
    KvService::put(&mut store, put_req(b"k", b"v"));
    let e = KvService::compact(&mut store, 5).unwrap_err();
    assert_eq!(e, KvError::CompactFailed);
    assert_eq!(e.code(), ErrorCode::Internal);
    assert_eq!(e.message(), "Compaction operation failed");
    let e = KvService::compact(&mut store, 0).unwrap_err();
    assert_eq!(e, KvError::CompactFailed);
}

#[test]
fn range_errors_pass_through() {
    let mut store = Store::new(None);
    KvService::put(&mut store, put_req(b"k", b"v"));
    let mut req = range_req(b"k", b"");
    req.revision = 9;
    let e = KvService::range(&store, req).unwrap_err();
    assert_eq!(e, KvError::Store(StoreError::FutureRev));
    assert_eq!(e.code(), ErrorCode::OutOfRange);
    assert_eq!(e.message(), "etcdserver: mvcc: required revision is a future revision");
    let mut req = range_req(b"k", b"");
    req.limit = -3;
    let r = KvService::range(&store, req).unwrap();
    assert_eq!(r.kvs.len(), 1);
    assert!(r.more);
}
