use bytes::Bytes;
use mem_etcd::store::Store;
use mem_etcd::types::{ErrorCode, RangeResult, SetRequired, StoreError};

fn put(s: &mut Store, key: &[u8], value: &'static [u8]) -> i64 {
    s.set(key.to_vec(), Some(Bytes::from_static(value)), None).unwrap()
}

#[test]
fn test_range_revision() {
    let mut s = Store::new(None);
    let rev = s.set(b"foo".to_vec(), Some(Bytes::from_static(b"bar")),
        Some(SetRequired{required_last_revision: Some(0), required_version: None})).unwrap();
    assert_eq!(rev, 1, "unexpected revision");

    let RangeResult { kvs, latest_rev: rev, .. } = s.range(b"foo".to_vec(), b"".to_vec(), 0, None).unwrap();
    assert_eq!(kvs.len(), 1, "unexpected kv {:?}", kvs);
    assert_eq!(kvs[0].key, b"foo".to_vec(), "unexpected key");
    assert_eq!(kvs[0].value, b"bar".to_vec(), "unexpected value");
    assert_eq!(rev, 1, "unexpected revision");

    let rev = s.set(b"foo".to_vec(), Some(Bytes::from_static(b"baz")), None).unwrap();
    assert_eq!(rev, 2, "unexpected revision");

    let RangeResult { kvs, latest_rev: rev, .. } = s.range(b"foo".to_vec(), b"".to_vec(), 0, None).unwrap();
    assert_eq!(kvs.len(), 1, "unexpected kv {:?}", kvs);
    assert_eq!(rev, 2, "unexpected revision");
    assert_eq!(kvs[0].key, b"foo".to_vec(), "unexpected key");
    assert_eq!(kvs[0].value, b"baz".to_vec(), "unexpected value");

    let RangeResult { kvs, latest_rev: rev, .. } = s.range(b"foo".to_vec(), b"".to_vec(), 1, None).unwrap();
    assert_eq!(kvs.len(), 1, "unexpected kv {:?}", kvs);
    assert_eq!(rev, 2, "unexpected revision");
    assert_eq!(kvs[0].key, b"foo".to_vec(), "unexpected key");
    assert_eq!(kvs[0].value, b"bar".to_vec(), "unexpected value");

    let result = s.range(b"foo".to_vec(), b"".to_vec(), 3, None);
    assert!(result.is_err(), "expected error");
}

#[test]
fn test_range() {
    let mut s = Store::new(None);
    put(&mut s, b"foo", b"bar");
    put(&mut s, b"foo1", b"bar1");
    put(&mut s, b"foo2", b"bar2");
    put(&mut s, b"foo3", b"bar3");
    put(&mut s, b"foo4", b"bar4");
    put(&mut s, b"foo", b"baz");

    let RangeResult { kvs, latest_rev: rev, .. } = s.range(b"foo".to_vec(), b"fooz".to_vec(), 0, None).unwrap();
    assert_eq!(kvs.len(), 5, "unexpected kvs: {:?}", kvs);
    assert_eq!(rev, 6, "unexpected revision");
    assert_eq!(kvs[0].key, b"foo".to_vec(), "unexpected key");
    assert_eq!(kvs[0].value, b"baz".to_vec(), "unexpected value");
    assert_eq!(kvs[1].key, b"foo1".to_vec(), "unexpected key");
    assert_eq!(kvs[4].key, b"foo4".to_vec(), "unexpected key");

    let RangeResult { kvs, latest_rev: rev, .. }  = s.range(b"foo".to_vec(), b"fooz".to_vec(), 3, None).unwrap();
    assert_eq!(kvs.len(), 3, "unexpected kvs: {:?}", kvs);
    assert_eq!(rev, 6, "unexpected revision");
    assert_eq!(kvs[0].key, b"foo".to_vec(), "unexpected key");
    assert_eq!(kvs[1].key, b"foo1".to_vec(), "unexpected key");
    assert_eq!(kvs[2].key, b"foo2".to_vec(), "unexpected key");
}

#[test]
fn test_range_slashes() {
    let mut s = Store::new(None);
    let RangeResult { kvs, .. } = s
        .range(b"/a/b/c/".to_vec(), b"/a/b/c0".to_vec(), 0, None)
        .unwrap();
    assert_eq!(kvs.len(), 0, "unexpected kvs: {:?}", kvs);

    put(&mut s, b"/registry/apiextensions.k8s.io/customresourcedefinitions/addons", b"bar");
    let RangeResult { kvs, .. } = s.range(b"/registry/apiextensions.k8s.io/customresourcedefinitions/addons".to_vec(), b"".to_vec(), 0, None).unwrap();
    assert_eq!(kvs.len(), 1, "unexpected kvs: {:?}", kvs);

    put(&mut s, b"/bootstrap/aaa", b"bar");
    let RangeResult { kvs, .. } = s
        .range(b"/bootstrap".to_vec(), b"/bootstraq".to_vec(), 0, None)
        .unwrap();
    assert_eq!(kvs.len(), 1, "unexpected kvs: {:?}", kvs);
}

#[test]
fn test_compaction_one() {
    let mut s = Store::new(None);
    // rev 1
    let rev = s.set(b"foo".to_vec(), Some(Bytes::from_static(b"bar")), None).unwrap();
    assert_eq!(rev, 1, "unexpected revision");

    s.compact(1).unwrap();

    let RangeResult { kvs, latest_rev: rev, .. } = s.range(b"foo".to_vec(), b"".to_vec(), 0, None).unwrap();
    assert_eq!(kvs.len(), 1, "unexpected kvs after compaction");
    assert_eq!(kvs[0].value, b"bar".to_vec(), "unexpected value");
    assert_eq!(rev, 1, "expected revision 1");
}

#[test]
fn store_test_test_compaction() {
    let mut s = Store::new(None);
    put(&mut s, b"foo", b"bar1"); // rev 1
    put(&mut s, b"foo2", b"v2"); // rev 2
    put(&mut s, b"foo", b"bar2"); // rev 3
    put(&mut s, b"foo", b"bar3"); // rev 4
    put(&mut s, b"foo", b"bar4"); // rev 5
    put(&mut s, b"foo", b"bar5"); // rev 6

    let RangeResult { latest_rev: rev, .. } = s.range(b"foo".to_vec(), b"".to_vec(), 0, None).unwrap();
    assert_eq!(rev, 6, "unexpected revision after sets");

    // Compact everything <= 3
    s.compact(3).unwrap();

    // Trying to get revision 2 or 3 for "foo" should fail now
    let should_fail = s.range(b"foo".to_vec(), b"".to_vec(), 2, None);
    assert!(should_fail.is_err(), "expected error after compaction");

    // We can still read at or after 3 for "foo2"
    let RangeResult { kvs, latest_rev: rev, .. } = s.range(b"foo2".to_vec(), b"".to_vec(), 3, None).unwrap();

    assert_eq!(rev, 6, "unexpected revision from range on foo2");
    assert_eq!(kvs.len(), 1, "unexpected kvs for foo2 at rev 3");
    assert_eq!(kvs[0].key, b"foo2".to_vec(), "unexpected key");
    assert_eq!(kvs[0].value, b"v2".to_vec(), "unexpected value");
}

#[test]
fn test_set_txn_revision() {
    let mut s = Store::new(None);
    // revision 1
    let rev = put(&mut s, b"foo", b"r1");
    assert_eq!(rev, 1, "unexpected revision");

    // Set with required revision = 1
    let rev = s.set(b"foo".to_vec(), Some(Bytes::from_static(b"r2")), Some(SetRequired{required_last_revision: Some(1), required_version: None})).unwrap();
    assert_eq!(rev, 2, "unexpected revision");

    // Another set
    let rev = put(&mut s, b"foo", b"r3");
    assert_eq!(rev, 3, "unexpected revision");

    let (rev, _val) = s.set(b"foo".to_vec(), Some(Bytes::from_static(b"r4")), Some(SetRequired{required_last_revision: Some(1), required_version: None})).unwrap_err();
    assert_eq!(rev, 3, "unexpected revision");

    let RangeResult { kvs, .. } = s.range(b"foo".to_vec(), b"".to_vec(), 0, None).unwrap();
    assert!(kvs[0].value == b"r3".to_vec())
}

#[test]
fn test_set_txn_version() {
    let mut s = Store::new(None);
    let _ = s.set(b"a".to_vec(), Some(Bytes::from_static(b"r1")), None).unwrap();

    // revision 2, version 1
    s.set(b"foo".to_vec(), Some(Bytes::from_static(b"r2")), None).unwrap();

    // Set with required version == 1
    let rev = s.set(b"foo".to_vec(), Some(Bytes::from_static(b"r3")), Some(SetRequired{required_last_revision: None, required_version: Some(1)})).unwrap();
    assert_eq!(rev, 3, "unexpected revision");

    // Another set, version 2
    let rev = put(&mut s, b"foo", b"r4");
    assert_eq!(rev, 4, "unexpected revision");

    // Set with required version == 1 should fail
    let (rev, _val) = s.set(b"foo".to_vec(), Some(Bytes::from_static(b"r5")), Some(SetRequired{required_last_revision: None, required_version: Some(1)})).unwrap_err();
    assert_eq!(rev, 4, "unexpected revision");

    // Delete the key, then set with required version 0 should work
    s.delete(b"foo".to_vec(), None).unwrap(); // rev 5
    let rev = s.set(b"foo".to_vec(), Some(Bytes::from_static(b"r6")), Some(SetRequired{required_last_revision: None, required_version: Some(0)})).unwrap();
    assert_eq!(rev, 6, "unexpected revision");

    // Creating a new key with required version 0 should work
    let rev = s.set(b"bar".to_vec(), Some(Bytes::from_static(b"r7")), Some(SetRequired{required_last_revision: None, required_version: Some(0)})).unwrap();
    assert_eq!(rev, 7, "unexpected revision");
}

#[test]
fn test_delete() {
    let mut s = Store::new(None);
    put(&mut s, b"a", b"r1");
    put(&mut s, b"a", b"r2");

    // Delete a non-existent key
    let (rev, _) = s.delete(b"b".to_vec(), None).unwrap_err();
    assert_eq!(rev, 2, "unexpected revision"); // negative rev indicates the key does not exist

    let rev = s.delete(b"a".to_vec(), None).unwrap();
    assert_eq!(rev, 3, "unexpected revision");

    let RangeResult { kvs, .. } = s.range(b"a".to_vec(), b"".to_vec(), 0, None).unwrap();
    assert!(kvs.is_empty(), "unexpected kvs: {:?}", kvs);

    // Delete a key that's already deleted
    let (rev, _) = s.delete(b"a".to_vec(), None).unwrap_err();
    assert_eq!(rev, 3, "unexpected revision"); // negative rev indicates the key does not exist

    // Re-create a deleted key
    s.set(b"a".to_vec(), Some(Bytes::from_static(b"r3")), None).unwrap();
    let RangeResult { kvs, .. } = s.range(b"a".to_vec(), b"".to_vec(), 0, None).unwrap();
    assert_eq!(
        kvs[0].create_revision, 4,
        "CreateRevision expected to be 4, was instead {}",
        kvs[0].create_revision
    );
    assert_eq!(
        kvs[0].value,
        b"r3".to_vec(),
        "Expected r3, got {:?}",
        kvs[0].value
    );
}

#[test]
fn test_delete_revision() {
    let mut s = Store::new(None);
    put(&mut s, b"a", b"r1");
    put(&mut s, b"a", b"r2");

    let (rev, v) = s.delete(b"a".to_vec(), Some(SetRequired{required_last_revision: Some(1), required_version: None})).unwrap_err();
    assert_eq!(rev, 2, "unexpected revision");
    assert!(
        v.is_some(),
        "Expected Delete to fail and value to be returned"
    );

    let rev = s.delete(b"a".to_vec(), Some(SetRequired{required_last_revision: Some(2), required_version: None})).unwrap();
    assert_eq!(rev, 3, "unexpected revision");
}

#[test]
fn range_counts_every_key_beyond_the_limit() {
    let mut s = Store::new(None);
    for _round in 0..10 {
        for i in 0..1000 {
            let value = format!("value{}", i).into_bytes();
            s.set(format!("key{}", i).into_bytes(), Some(Bytes::from(value)), None).unwrap();
        }
    }
    let RangeResult { kvs, count, .. } = s.range(b"a".to_vec(), b"z".to_vec(), 5000, Some(50)).unwrap();
    assert_eq!(kvs.len(), 50, "unexpected kv length: {:?}", kvs.len());
    assert_eq!(count, 1000, "unexpected count: {:?}", count);
}

#[test]
fn first_put_gets_revision_one() {
    let mut s = Store::new(None);
    assert_eq!(s.current_revision(), 0);
    assert_eq!(put(&mut s, b"foo", b"bar"), 1);
    let r = s.range(b"foo".to_vec(), b"".to_vec(), 0, None).unwrap();
    assert_eq!(r.kvs.len(), 1);
    assert_eq!(r.latest_rev, 1);
    assert_eq!(r.count, 1);
    assert_eq!(r.kvs[0].create_revision, 1);
    assert_eq!(r.kvs[0].mod_revision, 1);
    assert_eq!(r.kvs[0].version, 1);
    assert_eq!(r.kvs[0].lease, 0);
}

#[test]
fn range_limit_counts_one_beyond() {
    let mut s = Store::new(None);
    for i in 0..10u8 {
        s.set(vec![b'a' + i], Some(Bytes::from(vec![b'r', i])), None).unwrap();
    }
    let r = s.range(b"a".to_vec(), b"z".to_vec(), 0, Some(4)).unwrap();
    assert_eq!(r.kvs.len(), 4);
    assert_eq!(r.count, 10);
    assert_eq!(r.kvs[3].key, b"d".to_vec());
    let r = s.range(b"a".to_vec(), b"z".to_vec(), 0, Some(10)).unwrap();
    assert_eq!(r.kvs.len(), 10);
    assert_eq!(r.count, 10);
    let r = s.range(b"a".to_vec(), b"z".to_vec(), 0, Some(15)).unwrap();
    assert_eq!(r.kvs.len(), 10);
    assert_eq!(r.count, 10);
    let r = s.range(b"a".to_vec(), b"z".to_vec(), 0, Some(0)).unwrap();
    assert_eq!(r.kvs.len(), 0);
    assert_eq!(r.count, 10);
}

#[test]
fn range_limit_skips_deleted_keys_until_the_limit_is_passed() {
    let mut s = Store::new(None);
    for i in 0..6u8 {
        s.set(vec![b'a' + i], Some(Bytes::from(vec![i])), None).unwrap();
    }
    s.delete(b"b".to_vec(), None).unwrap();
    s.delete(b"f".to_vec(), None).unwrap();
    // live: a c d e; the limit 2 is passed at d, after which e and f are counted
    let r = s.range(b"a".to_vec(), b"z".to_vec(), 0, Some(2)).unwrap();
    assert_eq!(r.kvs.len(), 2);
    assert_eq!(r.kvs[1].key, b"c".to_vec());
    assert_eq!(r.count, 5);
    let r = s.range(b"a".to_vec(), b"z".to_vec(), 0, Some(4)).unwrap();
    assert_eq!(r.kvs.len(), 4);
    assert_eq!(r.count, 4);
    let r = s.range(b"a".to_vec(), b"z".to_vec(), 0, None).unwrap();
    assert_eq!(r.count, 4);
}

#[test]
fn range_errors_name_their_cause() {
    let mut s = Store::new(None);
    put(&mut s, b"foo", b"1");
    put(&mut s, b"foo", b"2");
    put(&mut s, b"foo", b"3");
    assert_eq!(s.range(b"foo".to_vec(), b"".to_vec(), 4, None).unwrap_err(), StoreError::FutureRev);
    s.compact(3).unwrap();
    assert_eq!(s.compacted_revision(), 2);
    assert_eq!(s.range(b"foo".to_vec(), b"".to_vec(), 1, None).unwrap_err(), StoreError::Compacted);
    assert_eq!(s.range(b"foo".to_vec(), b"".to_vec(), 2, None).unwrap_err(), StoreError::Compacted);
    assert!(s.range(b"foo".to_vec(), b"".to_vec(), 3, None).is_ok());
    assert_eq!(
        s.range(b"/registry/pods/a".to_vec(), b"/registry/roles/a".to_vec(), 0, None).unwrap_err(),
        StoreError::PrefixMismatch
    );
    assert_eq!(StoreError::FutureRev.code(), ErrorCode::OutOfRange);
    assert_eq!(StoreError::Compacted.code(), ErrorCode::OutOfRange);
    assert_eq!(StoreError::PrefixMismatch.code(), ErrorCode::InvalidArgument);
    assert_eq!(StoreError::CompactFailed.code(), ErrorCode::Internal);
    assert_eq!(
        StoreError::Compacted.message(),
        "etcdserver: mvcc: required revision has been compacted"
    );
    assert_eq!(
        StoreError::FutureRev.message(),
        "etcdserver: mvcc: required revision is a future revision"
    );
}

#[test]
fn compact_rejects_revisions_out_of_range() {
    let mut s = Store::new(None);
    put(&mut s, b"foo", b"1");
    put(&mut s, b"foo", b"2");
    put(&mut s, b"foo", b"3");
    assert_eq!(s.compact(0).unwrap_err(), StoreError::Compacted);
    assert_eq!(s.compact(4).unwrap_err(), StoreError::Compacted);
    assert_eq!(s.compact(3), Ok(()));
    assert_eq!(s.compact(2).unwrap_err(), StoreError::CompactFailed);
    assert_eq!(s.compact(3), Ok(()));
    assert_eq!(s.current_revision(), 3);
    let r = s.range(b"foo".to_vec(), b"".to_vec(), 0, None).unwrap();
    assert_eq!(r.kvs[0].value, b"3".to_vec());
    assert_eq!(r.kvs[0].version, 3);
}

#[test]
fn current_revision_counts_successful_writes() {
    let mut s = Store::new(None);
    put(&mut s, b"~", b"");
    assert_eq!(s.current_revision(), 1);
    let mut done = 0;
    for i in 0..20u8 {
        let key = vec![b'k', i % 5];
        let ok = if i % 3 == 0 {
            s.delete(key, None).is_ok()
        } else {
            s.set(key, Some(Bytes::from(vec![i])), Some(SetRequired { required_last_revision: None, required_version: if i % 4 == 0 { Some(1) } else { None } })).is_ok()
        };
        if ok {
            done += 1;
        }
        assert_eq!(s.current_revision(), done + 1);
    }
}

#[test]
fn version_counts_modifications_since_creation() {
    let mut s = Store::new(None);
    put(&mut s, b"other", b"x");
    for i in 1..=5i64 {
        put(&mut s, b"k", b"v");
        let r = s.range(b"k".to_vec(), b"".to_vec(), 0, None).unwrap();
        assert_eq!(r.kvs[0].create_revision, 2);
        assert_eq!(r.kvs[0].version, i);
        assert_eq!(r.kvs[0].mod_revision, 1 + i);
    }
}

#[test]
fn pruned_chain_still_reads_after_compaction() {
    let mut s = Store::new(None);
    put(&mut s, b"k", b"1"); // 1
    put(&mut s, b"k", b"2"); // 2
    put(&mut s, b"j", b"x"); // 3
    put(&mut s, b"k", b"4"); // 4
    s.compact(4).unwrap();
    put(&mut s, b"k", b"5"); // 5
    let r = s.range(b"k".to_vec(), b"".to_vec(), 4, None).unwrap();
    assert_eq!(r.kvs[0].value, b"4".to_vec());
    assert_eq!(r.kvs[0].version, 3);
    let r = s.range(b"j".to_vec(), b"".to_vec(), 4, None).unwrap();
    assert_eq!(r.kvs[0].value, b"x".to_vec());
    let r = s.range(b"k".to_vec(), b"".to_vec(), 0, None).unwrap();
    assert_eq!(r.kvs[0].value, b"5".to_vec());
    assert_eq!(r.kvs[0].create_revision, 1);
}

#[test]
fn empty_value_is_not_a_deletion() {
    let mut s = Store::new(None);
    s.set(b"k".to_vec(), Some(Bytes::from(Vec::new())), None).unwrap();
    let r = s.range(b"k".to_vec(), b"".to_vec(), 0, None).unwrap();
    assert_eq!(r.kvs.len(), 1);
    assert_eq!(r.kvs[0].value, Vec::<u8>::new());
    assert_eq!(r.kvs[0].version, 1);
}
