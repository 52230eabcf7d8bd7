use bytes::Bytes;
use dashmap::DashSet;
use mem_etcd::notify::{Dispatched, Notifier, NotifyJob};
use mem_etcd::types::{KeyValue, KeyValueWithPrev};
use mem_etcd::wal::WalMode;
use mem_etcd::wal_manager::WalManager;

fn job(rev: i64) -> NotifyJob {
    job_of(rev, b"key", b"value", b"")
}

fn job_of(rev: i64, key: &[u8], value: &'static [u8], prefix: &[u8]) -> NotifyJob {
    NotifyJob {
        rev,
        watchers: vec![rev * 10],
        msg: KeyValueWithPrev {
            prev_kv: None,
            kv: KeyValue {
                key: key.to_vec(),
                create_revision: rev,
                mod_revision: rev,
                version: 1,
                value: Bytes::from_static(value),
                lease: 0,
            },
        },
        prefix: prefix.to_vec(),
        wal_sync: false,
    }
}

fn revs(out: &[Dispatched]) -> Vec<i64> {
    out.iter().map(|d| d.job.rev).collect()
}

#[test]
fn jobs_in_order_pass_straight_through() {
    let mut n = Notifier::new(None);
    assert_eq!(n.progress_revision(), 0);
    for rev in 1..=5 {
        let out = n.receive(job(rev));
        assert_eq!(revs(&out), vec![rev]);
        assert_eq!(out[0].job.watchers, vec![rev * 10]);
        assert_eq!(out[0].writer, None);
        assert_eq!(n.progress_revision(), rev);
    }
}

#[test]
fn jobs_out_of_order_wait_for_their_turn() {
    let mut n = Notifier::new(None);
    assert!(n.receive(job(3)).is_empty());
    assert!(n.receive(job(5)).is_empty());
    assert!(n.receive(job(2)).is_empty());
    assert_eq!(n.progress_revision(), 0);
    assert_eq!(revs(&n.receive(job(1))), vec![1, 2, 3]);
    assert_eq!(n.progress_revision(), 3);
    assert!(n.receive(job(7)).is_empty());
    assert!(n.receive(job(6)).is_empty());
    assert_eq!(revs(&n.receive(job(4))), vec![4, 5, 6, 7]);
    assert_eq!(n.progress_revision(), 7);
    assert_eq!(revs(&n.receive(job(8))), vec![8]);
}

#[test]
fn every_order_of_arrival_is_dispatched_in_revision_order() {
    let orders: [[i64; 4]; 6] = [
        [1, 2, 3, 4],
        [4, 3, 2, 1],
        [2, 1, 4, 3],
        [3, 1, 2, 4],
        [2, 4, 1, 3],
        [4, 1, 3, 2],
    ];
    for order in orders.iter() {
        let mut n = Notifier::new(None);
        let mut sent = Vec::new();
        for rev in order.iter() {
            assert!(n.can_receive());
            sent.extend(revs(&n.receive(job(*rev))));
        }
        assert_eq!(sent, vec![1, 2, 3, 4]);
        assert_eq!(n.progress_revision(), 4);
    }
}

#[test]
fn dispatched_jobs_are_logged() {
    let wal = WalManager::new(WalMode::Async, DashSet::new());
    let mut n = Notifier::new(Some(wal));
    assert!(n.receive(job_of(2, b"/registry/pods/b", b"", b"/registry/pods/")).is_empty());
    assert_eq!(n.wal().as_ref().unwrap().writer_count(), 0);
    let out = n.receive(job_of(1, b"/registry/pods/a", b"one", b"/registry/pods/"));
    assert_eq!(revs(&out), vec![1, 2]);
    assert_eq!(out[0].writer, Some(0));
    assert_eq!(out[1].writer, Some(0));
    let out = n.receive(job_of(3, b"other", b"x", b""));
    assert_eq!(out[0].writer, Some(1));
    let wal = n.wal().as_ref().unwrap();
    assert_eq!(wal.writer_count(), 2);
    assert_eq!(wal.pending(0), 2);
    assert_eq!(wal.pending(1), 1);
    let batch = n.take_batch(0).unwrap();
    assert_eq!(batch.records(), 2);
    assert!(!batch.needs_sync());
    assert!(n.take_batch(2).is_none());
    let mut bytes = Vec::new();
    for i in 0..batch.segment_count() {
        bytes.extend_from_slice(batch.segment(i));
    }
    let mut want = Vec::new();
    want.extend_from_slice(&1u64.to_le_bytes());
    want.extend_from_slice(&16u32.to_le_bytes());
    want.extend_from_slice(&3u32.to_le_bytes());
    want.extend_from_slice(b"/registry/pods/a");
    want.extend_from_slice(b"one");
    // a change to an empty value is logged as a deletion
    want.extend_from_slice(&2u64.to_le_bytes());
    want.extend_from_slice(&16u32.to_le_bytes());
    want.extend_from_slice(&0xFFFF_FFFFu32.to_le_bytes());
    want.extend_from_slice(b"/registry/pods/b");
    assert_eq!(bytes, want);
}

#[test]
fn notifier_without_log_hands_out_no_batches() {
    let mut n = Notifier::new(None);
    n.receive(job(1));
    assert!(n.wal().is_none());
    assert!(n.take_batch(0).is_none());
}
