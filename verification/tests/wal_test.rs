use dashmap::DashSet;
use mem_etcd::batch::WriteBatch;
use mem_etcd::replay::{load_wal_dir, merge, read_all};
use mem_etcd::store::Store;
use mem_etcd::wal::{file_name_for_prefix, WalError, WalMode, WalRecord, WalSettings};
use mem_etcd::wal_manager::WalManager;

fn rec(rev: i64, key: &[u8], value: Option<&[u8]>) -> WalRecord {
    WalRecord { rev, key: key.to_vec(), value: value.map(|v| v.to_vec()) }
}

#[test]
fn record_layout_is_little_endian() {
    let r = rec(0x0102030405060708, b"key", Some(b"value"));
    let bytes = r.encode().unwrap();
    assert_eq!(
        bytes,
        vec![
            8, 7, 6, 5, 4, 3, 2, 1, // rev
            3, 0, 0, 0, // key length
            5, 0, 0, 0, // value length
            b'k', b'e', b'y', b'v', b'a', b'l', b'u', b'e',
        ]
    );
    assert_eq!(r.header().unwrap(), bytes[..16].to_vec());
}

#[test]
fn deletion_is_marked_by_the_value_length() {
    let r = rec(7, b"k", None);
    let bytes = r.encode().unwrap();
    assert_eq!(bytes.len(), 17);
    assert_eq!(&bytes[12..16], &[0xff, 0xff, 0xff, 0xff]);
    assert_eq!(WalRecord::read_from(&bytes, 0), Ok(Some((r, 17))));
    // an empty value is not a deletion
    let r = rec(7, b"k", Some(b""));
    let bytes = r.encode().unwrap();
    assert_eq!(&bytes[12..16], &[0, 0, 0, 0]);
    assert_eq!(WalRecord::read_from(&bytes, 0), Ok(Some((r, 17))));
}

#[test]
fn records_read_back_as_written() {
    let records = vec![
        rec(1, b"a", Some(b"one")),
        rec(2, b"", Some(b"")),
        rec(-5, b"negative", None),
        rec(i64::MAX, b"max", Some(b"x")),
        rec(i64::MIN, b"min", Some(&[0u8; 300])),
    ];
    let mut bytes = Vec::new();
    for r in records.iter() {
        bytes.extend(r.encode().unwrap());
    }
    let mut at = 0;
    for r in records.iter() {
        let (got, next) = WalRecord::read_from(&bytes, at).unwrap().unwrap();
        assert_eq!(&got, r);
        assert_eq!(next, at + 16 + r.key.len() + r.value.as_ref().map_or(0, |v| v.len()));
        at = next;
    }
    assert_eq!(at, bytes.len());
    assert_eq!(WalRecord::read_from(&bytes, at), Ok(None));
    assert_eq!(read_all(&bytes).unwrap(), records);
}

#[test]
fn reading_stops_at_a_short_header_and_fails_on_a_short_body() {
    let bytes = rec(3, b"key", Some(b"value")).encode().unwrap();
    // fewer than 16 bytes left: the end of the log
    for n in 0..16 {
        assert_eq!(WalRecord::read_from(&bytes[..n], 0), Ok(None));
    }
    assert_eq!(WalRecord::read_from(&bytes, bytes.len() - 3), Ok(None));
    assert_eq!(WalRecord::read_from(&bytes, bytes.len() + 10), Ok(None));
    // the key or the value is cut off
    for n in 16..bytes.len() {
        assert_eq!(WalRecord::read_from(&bytes[..n], 0), Err(WalError::UnexpectedEof));
    }
    let mut two = bytes.clone();
    two.extend_from_slice(&bytes[..20]);
    assert_eq!(read_all(&two), Err(WalError::UnexpectedEof));
    two.truncate(bytes.len() + 7);
    assert_eq!(read_all(&two).unwrap().len(), 1);
}

#[test]
fn file_names_are_hex_of_the_prefix() {
    assert_eq!(file_name_for_prefix(b""), "prefix_.wal");
    assert_eq!(file_name_for_prefix(b"/r"), "prefix_2f72.wal");
    assert_eq!(file_name_for_prefix(&[0x00, 0x0f, 0xa0, 0xff]), "prefix_000fa0ff.wal");
    assert_eq!(
        file_name_for_prefix(b"/registry/pods/"),
        "prefix_2f72656769737472792f706f64732f.wal"
    );
}

#[test]
fn manager_keeps_one_queue_per_prefix() {
    let skip = DashSet::new();
    skip.insert(b"/registry/events/".to_vec());
    let mut wal = WalManager::new(WalMode::Sync, skip);
    assert_eq!(wal.default_mode(), WalMode::Sync);
    assert_eq!(wal.append(b"/registry/pods/", 1, b"/registry/pods/a", Some(b"1")), Some(0));
    assert_eq!(wal.append(b"", 2, b"other", Some(b"2")), Some(1));
    assert_eq!(wal.append(b"/registry/events/", 3, b"/registry/events/e", Some(b"3")), None);
    assert_eq!(wal.append(b"/registry/pods/", 4, b"/registry/pods/a", None), Some(0));
    assert_eq!(wal.writer_count(), 2);
    assert_eq!(wal.pending(0), 2);
    assert_eq!(wal.pending(1), 1);
    assert_eq!(wal.file_name(0), "prefix_2f72656769737472792f706f64732f.wal");
    assert_eq!(wal.file_name(1), "prefix_.wal");

    let batch = wal.take_batch(0);
    assert_eq!(wal.pending(0), 0);
    assert_eq!(batch.records(), 2);
    assert!(batch.needs_sync());
    let mut want = rec(1, b"/registry/pods/a", Some(b"1")).encode().unwrap();
    want.extend(rec(4, b"/registry/pods/a", None).encode().unwrap());
    assert_eq!(batch.size(), want.len() as u64);
    assert_eq!(batch.remaining(), want.len() as u64);
    let mut got = Vec::new();
    for i in 0..batch.segment_count() {
        got.extend_from_slice(batch.segment(i));
    }
    assert_eq!(got, want);

    // nothing waits: the batch is empty
    let batch = wal.take_batch(0);
    assert_eq!(batch.records(), 0);
    assert!(batch.is_done());
}

#[test]
fn manager_that_is_off_takes_nothing() {
    let mut wal = WalManager::new(WalMode::Off, DashSet::new());
    assert_eq!(wal.append(b"", 1, b"k", Some(b"v")), None);
    assert_eq!(wal.writer_count(), 0);
    let mut wal = WalManager::new(WalMode::Async, DashSet::new());
    assert_eq!(wal.append(b"", 1, b"k", Some(b"v")), Some(0));
    assert!(!wal.take_batch(0).needs_sync());
}

#[test]
fn batch_closes_at_sixteen_kibibytes() {
    let mut wal = WalManager::new(WalMode::Async, DashSet::new());
    let value = vec![7u8; 5000];
    for rev in 1..=6 {
        wal.append(b"", rev, b"k", Some(&value));
    }
    // 5017 bytes each: the batch is below 16384 after three and closes after the fourth
    let batch = wal.take_batch(0);
    assert_eq!(batch.records(), 4);
    assert_eq!(batch.size(), 4 * 5017);
    assert_eq!(wal.pending(0), 2);
    let batch = wal.take_batch(0);
    assert_eq!(batch.records(), 2);
    assert_eq!(wal.pending(0), 0);
}

#[test]
fn batch_advances_over_partial_writes() {
    let mut batch = WriteBatch::new(false);
    assert!(batch.accepts());
    assert!(batch.push_record(&rec(1, b"key", Some(b"value"))));
    assert!(batch.push_record(&rec(2, b"", Some(b"v"))));
    assert!(batch.push_record(&rec(3, b"k", None)));
    let mut all = Vec::new();
    for i in 0..batch.segment_count() {
        all.extend_from_slice(batch.segment(i));
    }
    assert_eq!(batch.segment_count(), 7);
    assert_eq!(all.len(), 24 + 17 + 17);
    assert_eq!(batch.remaining(), 58);

    let mut written = Vec::new();
    for step in [5usize, 11, 0, 3, 6, 20, 13] {
        let mut chunk = Vec::new();
        for i in 0..batch.segment_count() {
            chunk.extend_from_slice(batch.segment(i));
        }
        assert_eq!(chunk, all[written.len()..].to_vec());
        written.extend_from_slice(&chunk[..step]);
        batch.advance(step);
        assert_eq!(batch.remaining(), (all.len() - written.len()) as u64);
        assert!(!batch.accepts() || step == 0 && written.is_empty());
    }
    assert!(batch.is_done());
    assert_eq!(batch.segment_count(), 0);
    assert_eq!(written, all);
    assert_eq!(batch.size(), 58);
    assert_eq!(batch.records(), 3);
}

#[test]
fn logs_are_merged_by_revision() {
    let a = vec![rec(1, b"a", Some(b"1")), rec(4, b"a", Some(b"4")), rec(5, b"a", None)];
    let b = vec![rec(2, b"b", Some(b"2")), rec(3, b"b", Some(b"3")), rec(7, b"b", Some(b"7"))];
    let c: Vec<WalRecord> = vec![];
    let d = vec![rec(6, b"d", Some(b"6"))];
    let merged = merge(&vec![a.clone(), b.clone(), c.clone(), d.clone()]);
    let revs: Vec<i64> = merged.iter().map(|r| r.rev).collect();
    assert_eq!(revs, vec![1, 2, 3, 4, 5, 6, 7]);
    assert_eq!(merged[4], rec(5, b"a", None));

    let encode = |rs: &Vec<WalRecord>| {
        let mut bytes = Vec::new();
        for r in rs {
            bytes.extend(r.encode().unwrap());
        }
        bytes
    };
    let files = vec![encode(&a), encode(&b), encode(&c), encode(&d)];
    assert_eq!(load_wal_dir(&files).unwrap(), merged);
    assert_eq!(load_wal_dir(&vec![]).unwrap(), vec![]);

    // a file that ends within a header ends there; one that ends within a key or a value is broken
    let mut short = files.clone();
    short[1].truncate(40);
    assert_eq!(load_wal_dir(&short).unwrap().len(), 6);
    let mut broken = files.clone();
    broken[1].truncate(53);
    assert_eq!(load_wal_dir(&broken), Err(WalError::UnexpectedEof));
}

#[test]
fn merge_takes_the_first_file_on_equal_revisions() {
    let a = vec![rec(2, b"a", None), rec(2, b"a2", None)];
    let b = vec![rec(1, b"b", None), rec(2, b"b", None)];
    let merged = merge(&vec![a, b]);
    let keys: Vec<Vec<u8>> = merged.iter().map(|r| r.key.clone()).collect();
    assert_eq!(keys, vec![b"b".to_vec(), b"a".to_vec(), b"a2".to_vec(), b"b".to_vec()]);
}

#[test]
fn replay_writes_the_records_again() {
    let mut s = Store::new(None);
    let records = vec![
        rec(1, b"a", Some(b"1")),
        rec(2, b"b", Some(b"2")),
        rec(3, b"a", None),
        rec(4, b"gone", None),
        rec(5, b"a", Some(b"5")),
    ];
    s.replay(&records);
    // the deletion of a key that never was is refused and takes no revision
    assert_eq!(s.current_revision(), 4);
    let r = s.range(b"a".to_vec(), b"z".to_vec(), 0, None).unwrap();
    assert_eq!(r.kvs.len(), 2);
    assert_eq!(r.kvs[0].value, b"5".to_vec());
    assert_eq!(r.kvs[0].create_revision, 4);
    assert_eq!(r.kvs[1].value, b"2".to_vec());
    assert_eq!(s.take_notifications().len(), 4);
}

#[test]
fn store_learns_the_sync_mode_from_its_settings() {
    let settings = |mode| WalSettings {
        wal_dir: String::from("./wal"),
        default_mode: mode,
        load_wal_dir: false,
        prefix_modes_no_persist: DashSet::new(),
    };
    let sync = settings(WalMode::Sync);
    let mut s = Store::new(Some(&sync));
    s.set(b"k".to_vec(), Some(bytes::Bytes::from_static(b"v")), None).unwrap();
    assert!(s.take_notifications()[0].wal_sync);
    let buffered = settings(WalMode::Async);
    let mut s = Store::new(Some(&buffered));
    s.set(b"k".to_vec(), Some(bytes::Bytes::from_static(b"v")), None).unwrap();
    assert!(!s.take_notifications()[0].wal_sync);
}
