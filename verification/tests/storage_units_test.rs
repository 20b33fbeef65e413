use std::cell::RefCell;
use std::collections::HashMap;

use bytes::Bytes;

use fluxdb::storage::bloom_filter::BloomFilter;
use fluxdb::storage::cache::BlockCache;
use fluxdb::storage::compaction::{CompactionStreamIter, Compactor};
use fluxdb::storage::engine::{
    is_table_file, join_path, table_file, table_id, BackupStep, EngineConfig, StorageEngine,
    TableFile, WorkerStep,
};
use fluxdb::storage::iterator::MergingScanner;
use fluxdb::storage::memtable::MemTable;
use fluxdb::storage::sstable::{read_slice, CompressionType, SsTable, SsTableBuilder};
use fluxdb::storage::wal::{SyncStep, WalConfig, WalRecord, WalRecovery, WalWriter};
use fluxdb::types::{DbError, OpType, PlayerId, ValueEntry};

type Files = RefCell<HashMap<u64, Vec<u8>>>;

fn read_of(files: &Files, id: u64, offset: u64, len: u64) -> Result<Vec<u8>, DbError> {
    match files.borrow().get(&id) {
        Some(data) => read_slice(data, offset, len),
        None => Err(DbError::Io("no such file".to_string())),
    }
}

fn put(value: &str, seq: u64) -> ValueEntry {
    ValueEntry::put(Bytes::copy_from_slice(value.as_bytes()), seq, 7)
}

fn record(key: u128, value: Option<&str>, seq: u64) -> WalRecord {
    WalRecord {
        seq_num: seq,
        timestamp: 5,
        op_type: if value.is_some() { OpType::Put } else { OpType::Delete },
        key: PlayerId::new(key),
        value: value.map(|v| Bytes::copy_from_slice(v.as_bytes())),
    }
}

fn open_engine(memtable_max_bytes: usize) -> StorageEngine {
    let config = EngineConfig {
        db_path: "db".to_string(),
        memtable_max_bytes,
        l0_compaction_trigger: 2,
        wal_config: WalConfig::default(),
    };
    StorageEngine::open(config, &vec![], None, &|_: u64, _: u64, _: u64| Ok(vec![])).unwrap()
}

#[test]
fn log_records_have_their_layout() {
    let group = vec![vec![record(1, Some("ab"), 2)]];
    assert!(WalWriter::group_fits(&group));
    let bytes = WalWriter::group_bytes(&group);
    assert_eq!(bytes.len(), 8 + 33 + 2);
    assert_eq!(&bytes[4..8], &35u32.to_be_bytes());
    assert_eq!(&bytes[8..16], &2u64.to_be_bytes());
    assert_eq!(&bytes[16..24], &5u64.to_be_bytes());
    assert_eq!(bytes[24], 1);
    assert_eq!(&bytes[25..41], &1u128.to_be_bytes());
    assert_eq!(&bytes[41..], b"ab");
    assert_eq!(&bytes[0..4], &crc32fast::hash(&bytes[8..]).to_be_bytes());
}

#[test]
fn logs_are_recovered() {
    assert_eq!(WalRecovery::recover(None).unwrap(), (vec![], 1));
    assert_eq!(WalRecovery::recover(Some(&[])).unwrap(), (vec![], 1));
    let group = vec![vec![record(1, Some("a"), 4), record(2, Some(""), 5)], vec![record(1, None, 6)]];
    let log = WalWriter::group_bytes(&group);
    let (entries, next) = WalRecovery::recover(Some(&log)).unwrap();
    assert_eq!(next, 7);
    assert_eq!(entries[0], (PlayerId::new(1), ValueEntry::put(Bytes::from_static(b"a"), 4, 5)));
    assert_eq!(entries[1], (PlayerId::new(2), ValueEntry::put(Bytes::new(), 5, 5)));
    assert_eq!(entries[2], (PlayerId::new(1), ValueEntry::delete(6, 5)));
    // A header that is cut off ends the log.
    let mut cut = log.to_vec();
    cut.extend_from_slice(&[1, 2, 3]);
    assert_eq!(WalRecovery::recover(Some(&cut)).unwrap().1, 7);
}

#[test]
fn damaged_logs_are_refused() {
    let log = WalWriter::group_bytes(&vec![vec![record(1, Some("a"), 4)]]).to_vec();
    assert_eq!(
        WalRecovery::recover(Some(&log[..log.len() - 1])),
        Err(DbError::Io("failed to fill whole buffer".to_string()))
    );
    let mut short = log.clone();
    short[7] = 32;
    assert_eq!(
        WalRecovery::recover(Some(&short)),
        Err(DbError::WalCorruption("Corrupt WAL payload length".to_string()))
    );
    let mut flipped = log.clone();
    flipped[41] ^= 1;
    let expected = crc32fast::hash(&log[8..]);
    let actual = crc32fast::hash(&flipped[8..]);
    assert_eq!(
        WalRecovery::recover(Some(&flipped)),
        Err(DbError::WalCorruption(format!(
            "CRC mismatch at WAL record! Expected {:08x}, got {:08x}",
            expected, actual
        )))
    );
    assert_eq!(
        WalRecovery::read_record(&log[8..], 1, 2),
        Err(DbError::WalCorruption(
            "CRC mismatch at WAL record! Expected 00000001, got 00000002".to_string()
        ))
    );
    assert_eq!(
        WalRecovery::read_record(&log[8..], 1, 1),
        Ok((PlayerId::new(1), ValueEntry::put(Bytes::from_static(b"a"), 4, 5)))
    );
    let mut unknown = log.clone();
    unknown[24] = 9;
    let crc = crc32fast::hash(&unknown[8..]);
    unknown[..4].copy_from_slice(&crc.to_be_bytes());
    assert_eq!(
        WalRecovery::recover(Some(&unknown)),
        Err(DbError::WalCorruption("Unknown op_type in WAL".to_string()))
    );
}

#[test]
fn writers_number_and_sync() {
    let mut wal = WalWriter::open(10, WalConfig::default());
    assert_eq!(wal.append_batch(vec![], 99), (10, 0, vec![]));
    let (seq, ts, records) = wal.append_batch(
        vec![
            (PlayerId::new(1), Some(Bytes::from_static(b"x")), OpType::Put),
            (PlayerId::new(2), None, OpType::Delete),
        ],
        99,
    );
    assert_eq!((seq, ts), (10, 99));
    assert_eq!((records[0].seq_num, records[1].seq_num), (10, 11));
    assert_eq!(wal.next_seq(), 12);
    assert!(wal.gathers(999, 8191));
    assert!(!wal.gathers(1000, 1));
    assert!(!wal.gathers(0, 8192));
    assert_eq!(wal.sync_step(10_000), SyncStep::FlushAndSync);
    let background = WalWriter::open(1, WalConfig { commit_delay_us: 0, async_fsync: true });
    assert_eq!(background.sync_step(499), SyncStep::Flush);
    assert_eq!(background.sync_step(500), SyncStep::FlushThenBackgroundSync);
    assert!(!wal.is_closed());
    wal.close();
    assert!(wal.is_closed());
    assert_eq!(WalWriter::outcome(true), Ok(()));
    assert_eq!(
        WalWriter::outcome(false),
        Err(DbError::WalCorruption("Failed to write to WAL".to_string()))
    );
}

#[test]
fn filters_are_encoded() {
    let mut filter = BloomFilter::with_size(100, 3);
    assert_eq!(filter.byte_len(), 13);
    for i in 0..20 {
        filter.insert(PlayerId::new(i * 77));
    }
    let image = filter.encode();
    assert_eq!(image.len(), 5 + 13);
    assert_eq!((image[0], &image[1..5]), (3, &13u32.to_be_bytes()[..]));
    let back = BloomFilter::decode(&image).unwrap();
    for i in 0..20 {
        assert!(back.contains(PlayerId::new(i * 77)));
    }
    assert_eq!(back.encode(), image);
    assert!(BloomFilter::decode(&image[..17]).is_none());
    assert!(BloomFilter::decode(&[1, 0, 0, 0]).is_none());
    assert!(!BloomFilter::decode(&[1, 0, 0, 0, 0]).unwrap().contains(PlayerId::new(1)));
}

#[test]
fn tables_are_reopened() {
    let mut entries = Vec::new();
    for i in 0..600u128 {
        let value = format!("value {:0>100}", i);
        let entry = if i % 3 == 0 { ValueEntry::delete(i as u64, 1) } else { put(&value, i as u64) };
        entries.push((PlayerId::new(i * 2 + 1), entry));
    }
    let (image, built) = SsTableBuilder::new("000007.sst", 7, 1)
        .build(&entries, BloomFilter::with_size(6000, 7))
        .unwrap()
        .unwrap();
    assert!(image.len() > 2 * 16384);
    let read = |_: u64, offset: u64, len: u64| read_slice(&image, offset, len);
    let table = SsTable::open("000007.sst", image.len() as u64, &read, 7, 1).unwrap();
    for t in [&built, &table] {
        assert_eq!((t.id(), t.level(), t.path(), t.entry_count()), (7, 1, "000007.sst", 600));
        assert_eq!((t.min_key(), t.max_key()), (PlayerId::new(1), PlayerId::new(1199)));
        assert_eq!(t.read_all_entries(&read).unwrap(), entries);
        for (key, entry) in &entries {
            assert_eq!(t.get(key, &read).unwrap().as_ref(), Some(entry));
        }
        assert_eq!(t.get(&PlayerId::new(0), &read).unwrap(), None);
        assert_eq!(t.get(&PlayerId::new(4), &read).unwrap(), None);
        assert_eq!(t.get(&PlayerId::new(1200), &read).unwrap(), None);
        let some = t.scan_range(Some(PlayerId::new(4)), Some(PlayerId::new(9)), &read).unwrap();
        assert_eq!(some, entries[2..5].to_vec());
    }
    assert_eq!(SsTableBuilder::new("x", 1, 0).build(&vec![], BloomFilter::with_size(64, 1)).unwrap().is_none(), true);
    let failing = |_: u64, _: u64, _: u64| Err(DbError::Io("gone".to_string()));
    assert_eq!(table.get(&PlayerId::new(3), &failing), Err(DbError::Io("gone".to_string())));
}

#[test]
fn damaged_tables_are_refused() {
    let entries = vec![(PlayerId::new(5), put("v", 1))];
    let (image, _) = SsTableBuilder::new("a.sst", 1, 0)
        .build(&entries, BloomFilter::with_size(64, 7))
        .unwrap()
        .unwrap();
    let open = |data: &[u8]| {
        let read = |_: u64, offset: u64, len: u64| read_slice(data, offset, len);
        SsTable::open("a.sst", data.len() as u64, &read, 1, 0).map(|t| t.entry_count())
    };
    assert_eq!(open(&image), Ok(1));
    assert_eq!(
        open(&image[..10]),
        Err(DbError::SstableCorruption("SSTable file a.sst too small".to_string()))
    );
    let mut magic = image.to_vec();
    let n = magic.len();
    magic[n - 1] ^= 0xff;
    assert_eq!(
        open(&magic),
        Err(DbError::SstableCorruption(
            "Invalid SSTable magic header 4d454f57535354ce in a.sst".to_string()
        ))
    );
    // One entry of 37 bytes and its value, the index with its count and one place, the filter.
    let mut index = image.to_vec();
    index[39] = 0xff;
    assert_eq!(
        open(&index),
        Err(DbError::SstableCorruption("Truncated SSTable block index".to_string()))
    );
    let mut filter = image.to_vec();
    filter[71] = 0xff;
    assert_eq!(
        open(&filter),
        Err(DbError::SstableCorruption("Failed to decode SSTable bloom filter".to_string()))
    );
    let mut unknown = image.to_vec();
    unknown[32] = 3;
    let read = |_: u64, offset: u64, len: u64| read_slice(&unknown, offset, len);
    let table = SsTable::open("a.sst", unknown.len() as u64, &read, 1, 0).unwrap();
    let bad = DbError::SstableCorruption("Unknown op_type in SSTable".to_string());
    assert_eq!(table.get(&PlayerId::new(5), &read), Err(bad));
    assert!(table.read_all_entries(&read).is_err());
}

#[test]
fn blocks_are_cached_least_recently_used() {
    let mut cache = BlockCache::new(0);
    cache.insert(1, 0, Bytes::from_static(b"abc"));
    assert!(!cache.is_enabled());
    assert_eq!(cache.get(1, 0), None);
    let mut cache = BlockCache::new(10);
    cache.insert(1, 0, Bytes::from_static(b"aaaa"));
    cache.insert(1, 4, Bytes::from_static(b"bbbb"));
    assert_eq!(cache.get(1, 0), Some(Bytes::from_static(b"aaaa")));
    cache.insert(2, 0, Bytes::from_static(b"cccc"));
    assert_eq!(cache.get(1, 4), None);
    assert_eq!(cache.get(1, 0), Some(Bytes::from_static(b"aaaa")));
    assert_eq!(cache.get(2, 0), Some(Bytes::from_static(b"cccc")));
    assert_eq!(cache.current_usage(), (8, 10));
    cache.insert(3, 0, Bytes::from_static(b"too long for it"));
    assert_eq!(cache.get(3, 0), None);
    cache.set_capacity(4);
    assert_eq!(cache.get(1, 0), None);
    assert_eq!(cache.get(2, 0), Some(Bytes::from_static(b"cccc")));
    cache.clear();
    assert_eq!(cache.current_usage(), (0, 4));
}

#[test]
fn memory_tables_are_sorted() {
    let mut m = MemTable::new();
    assert!(m.is_empty());
    for key in [5u128, 1, 9] {
        m.insert(PlayerId::new(key), put("value", key as u64));
    }
    m.insert(PlayerId::new(5), ValueEntry::delete(10, 0));
    assert_eq!(m.len(), 3);
    assert_eq!(m.get(&PlayerId::new(5)), Some(ValueEntry::delete(10, 0)));
    assert_eq!(m.get(&PlayerId::new(2)), None);
    assert!(m.contains_key(&PlayerId::new(9)) && !m.contains_key(&PlayerId::new(2)));
    let keys: Vec<u128> = m.iter().iter().map(|e| e.0 .0).collect();
    assert_eq!(keys, vec![1, 5, 9]);
    let keys: Vec<u128> =
        m.range(Some(PlayerId::new(2)), Some(PlayerId::new(9))).iter().map(|e| e.0 .0).collect();
    assert_eq!(keys, vec![5, 9]);
    assert!(m.size_bytes() > 0);
}

#[test]
fn the_newest_entry_is_scanned() {
    let mut active = MemTable::new();
    active.insert(PlayerId::new(1), put("new", 9));
    active.insert(PlayerId::new(2), ValueEntry::delete(8, 0));
    let mut older = MemTable::new();
    older.insert(PlayerId::new(1), put("old", 1));
    older.insert(PlayerId::new(2), put("old", 2));
    older.insert(PlayerId::new(3), put("kept", 3));
    older.insert(PlayerId::new(4), put("last", 4));
    let read = |_: u64, _: u64, _: u64| Ok(vec![]);
    let mems = vec![older];
    let rows = MergingScanner::scan(&active, &mems, &vec![], None, None, 2, &read).unwrap();
    assert_eq!(
        rows,
        vec![
            (PlayerId::new(1), Bytes::from_static(b"new")),
            (PlayerId::new(3), Bytes::from_static(b"kept")),
        ]
    );
}

#[test]
fn merging_drops_what_is_superseded() {
    let key = PlayerId::new;
    let sources = || {
        vec![
            vec![(key(1), put("a2", 5)), (key(2), ValueEntry::delete(6, 0))],
            vec![(key(1), put("a1", 1)), (key(2), put("b1", 2)), (key(3), put("c1", 3))],
        ]
    };
    let mut merged = CompactionStreamIter::new(sources(), false);
    assert_eq!(merged.next(), Some((key(1), put("a2", 5))));
    assert_eq!(merged.next(), Some((key(2), ValueEntry::delete(6, 0))));
    assert_eq!(merged.next(), Some((key(3), put("c1", 3))));
    assert_eq!(merged.next(), None);
    let mut merged = CompactionStreamIter::new(sources(), true);
    assert_eq!(merged.next(), Some((key(1), put("a2", 5))));
    assert_eq!(merged.next(), Some((key(3), put("c1", 3))));
    assert_eq!(merged.next(), None);
}

#[test]
fn compaction_keeps_what_is_read() {
    let files: Files = RefCell::new(HashMap::new());
    let read = |id: u64, offset: u64, len: u64| read_of(&files, id, offset, len);
    let logged = |_: &Vec<WalRecord>| Ok(());
    let mut engine = open_engine(1 << 20);
    for round in 0..2u64 {
        for i in 0..50u128 {
            let value = Bytes::from(format!("{} {}", round, i));
            engine.put(PlayerId::new(i + round as u128 * 25), value, 1000, logged).unwrap();
        }
        engine.delete(PlayerId::new(30), 1000, logged).unwrap();
        engine.force_flush();
        let size = engine.flush_size();
        engine
            .flush_memtable_to_sstable(BloomFilter::with_size(size * 10, 7), |_, image| {
                files.borrow_mut().insert(round + 1, image.to_vec());
                Ok(())
            })
            .unwrap();
    }
    let before = engine.scan(None, None, 1000, 0, &read).unwrap();
    assert_eq!(before.len(), 74);
    assert_eq!(engine.worker_step(WorkerStep::Flush), WorkerStep::Compact);
    assert_eq!(engine.compaction_size(), Some(100));
    let unused = engine
        .run_compaction(BloomFilter::with_size(1000, 7), &read, |path, image| {
            assert_eq!(path, "db/000003.sst");
            files.borrow_mut().insert(3, image.to_vec());
            Ok(())
        })
        .unwrap();
    assert_eq!(unused, vec!["db/000002.sst", "db/000001.sst"]);
    files.borrow_mut().remove(&1);
    files.borrow_mut().remove(&2);
    assert_eq!(engine.stats(), (0, 0, 1));
    assert_eq!(engine.compaction_size(), None);
    assert_eq!(engine.scan(None, None, 1000, 0, &read).unwrap(), before);
    for (key, value) in &before {
        assert_eq!(engine.get(key, 0, &read).unwrap().as_ref(), Some(value));
    }
    assert_eq!(engine.get(&PlayerId::new(30), 0, &read).unwrap(), None);

    let length = files.borrow()[&3].len() as u64;
    let listing = vec![TableFile { path: "db/000003.sst".to_string(), id: 3, len: length }];
    let config = EngineConfig::default();
    let again = StorageEngine::open(config, &listing, None, &read).unwrap();
    assert_eq!(again.scan(None, None, 1000, 0, &read).unwrap(), before);

    assert_eq!(engine.truncate(), vec!["db/000003.sst"]);
    assert_eq!(engine.stats(), (0, 0, 0));
    assert_eq!(engine.total_entries(&read).unwrap(), 0);
}

#[test]
fn failing_writes_change_nothing() {
    let files: Files = RefCell::new(HashMap::new());
    let read = |id: u64, offset: u64, len: u64| read_of(&files, id, offset, len);
    let mut engine = open_engine(1 << 20);
    let key = PlayerId::new(1);
    let failed = engine.put(key, Bytes::from_static(b"v"), 0, |_: &Vec<WalRecord>| {
        Err(DbError::Io("full".to_string()))
    });
    assert_eq!(failed, Err(DbError::Io("full".to_string())));
    assert_eq!(engine.get(&key, 0, &read).unwrap(), None);
    assert_eq!(engine.next_seq(), 2);
    engine.put(key, Bytes::from_static(b"v"), 0, |_: &Vec<WalRecord>| Ok(())).unwrap();
    engine.force_flush();
    assert_eq!(
        engine.flush_memtable_to_sstable(BloomFilter::with_size(64, 1), |_, _| {
            Err(DbError::Io("full".to_string()))
        }),
        Err(DbError::Io("full".to_string()))
    );
    assert_eq!(
        engine.apply_batch(vec![], 0, |_: &Vec<WalRecord>| Err(DbError::KeyNotFound)),
        Ok(())
    );
}

#[test]
fn full_memory_tables_are_rotated() {
    let files: Files = RefCell::new(HashMap::new());
    let read = |id: u64, offset: u64, len: u64| read_of(&files, id, offset, len);
    let mut engine = open_engine(1 << 20);
    engine.set_memtable_limit(1);
    engine
        .apply_batch(
            vec![
                (PlayerId::new(1), Some(Bytes::from_static(b"a")), OpType::Put),
                (PlayerId::new(2), None, OpType::Put),
                (PlayerId::new(1), None, OpType::Delete),
            ],
            0,
            |records: &Vec<WalRecord>| {
                assert_eq!(records.len(), 3);
                Ok(())
            },
        )
        .unwrap();
    assert_eq!(engine.stats(), (0, 2, 0));
    assert_eq!(engine.get(&PlayerId::new(1), 0, &read).unwrap(), None);
    assert_eq!(engine.get(&PlayerId::new(2), 0, &read).unwrap(), Some(Bytes::new()));
    assert!(engine.key_exists(&PlayerId::new(2), 0, &read).unwrap());
    assert!(!engine.key_exists(&PlayerId::new(1), 0, &read).unwrap());
    assert!(engine.set_expire(&PlayerId::new(2), 10, 100, &read));
    assert!(!engine.set_expire(&PlayerId::new(1), 10, 100, &read));
    assert_eq!(engine.get_ttl(&PlayerId::new(2), 105, &read), 5);
    assert!(!engine.is_expired(&PlayerId::new(2), 109));
    assert!(engine.is_expired(&PlayerId::new(2), 110));
    assert_eq!(engine.scan(None, None, 10, 109, &read).unwrap().len(), 1);
    assert_eq!(engine.scan(None, None, 10, 110, &read).unwrap().len(), 0);
    assert_eq!(engine.compression_type(), CompressionType::Lz4);
    engine.set_compression_type(CompressionType::Raw);
    assert_eq!(engine.compression_type().as_str(), "NONE");
    assert_eq!(engine.config().l0_compaction_trigger, 2);
    assert_eq!(engine.wal().next_seq(), 4);
}

#[test]
fn table_files_are_named() {
    assert_eq!(table_file("db", 7), "db/000007.sst");
    assert_eq!(table_file("db/", 1234567), "db/1234567.sst");
    assert_eq!(join_path("", "a"), "a");
    assert!(is_table_file("000007.sst") && !is_table_file(".sst") && !is_table_file("a.sst.bak"));
    assert_eq!(table_id("000007.sst"), Some(7));
    assert_eq!(table_id("x.sst"), None);
    assert_eq!(table_id("7.log"), None);
}

#[test]
fn plans_wait_for_enough_tables() {
    let build = |id: u64, key: u128, level: u32| {
        SsTableBuilder::new(&format!("{}.sst", id), id, level)
            .build(&vec![(PlayerId::new(key), put("v", id))], BloomFilter::with_size(64, 1))
            .unwrap()
            .unwrap()
            .1
    };
    let tables = vec![build(3, 1, 0), build(2, 2, 0), build(1, 1, 1)];
    assert!(Compactor::pick_compaction(&tables, 3).is_none());
    let plan = Compactor::pick_compaction(&tables, 2).unwrap();
    assert_eq!(plan.output_level, 1);
    assert_eq!(Compactor::estimated_entries(&tables, &plan.inputs), 3);
}

#[test]
fn reopened_engines_read_the_same() {
    let files: Files = RefCell::new(HashMap::new());
    let read = |id: u64, offset: u64, len: u64| read_of(&files, id, offset, len);
    let log: RefCell<Vec<u8>> = RefCell::new(Vec::new());
    let logged = |records: &Vec<WalRecord>| {
        let copies = records
            .iter()
            .map(|r| WalRecord {
                seq_num: r.seq_num,
                timestamp: r.timestamp,
                op_type: r.op_type,
                key: r.key,
                value: r.value.clone(),
            })
            .collect();
        log.borrow_mut().extend_from_slice(&WalWriter::group_bytes(&vec![copies]));
        Ok(())
    };
    let mut engine = open_engine(1 << 20);
    for round in 0..2u64 {
        for i in 0..20u128 {
            let value = Bytes::from(format!("{} {}", round, i));
            engine.put(PlayerId::new(i + round as u128 * 10), value, 1000, &logged).unwrap();
        }
        engine.delete(PlayerId::new(15), 1000, &logged).unwrap();
        engine.force_flush();
        let size = engine.flush_size();
        engine
            .flush_memtable_to_sstable(BloomFilter::with_size(size * 10, 7), |_, image| {
                files.borrow_mut().insert(round + 1, image.to_vec());
                Ok(())
            })
            .unwrap();
    }
    assert_eq!(engine.total_entries(&read).unwrap(), 29);
    let before = engine.scan(None, None, 1000, 0, &read).unwrap();
    let listing: Vec<TableFile> = [1u64, 2]
        .iter()
        .map(|id| TableFile {
            path: format!("db/00000{}.sst", id),
            id: *id,
            len: files.borrow()[id].len() as u64,
        })
        .collect();
    let config = EngineConfig::default();
    let again = StorageEngine::open(config, &listing, Some(&log.borrow()), &read).unwrap();
    assert_eq!(again.stats(), (30, 0, 2));
    assert_eq!(again.total_entries(&read).unwrap(), 29);
    assert_eq!(again.scan(None, None, 1000, 0, &read).unwrap(), before);
    assert_eq!(again.scan(None, None, 7, 0, &read).unwrap(), before[..7].to_vec());
    for (key, value) in &before {
        assert_eq!(again.get(key, 0, &read).unwrap().as_ref(), Some(value));
    }
    assert_eq!(again.get(&PlayerId::new(15), 0, &read).unwrap(), None);
}

#[test]
fn deleted_records_are_not_counted() {
    let read = |_: u64, _: u64, _: u64| Ok(vec![]);
    let logged = |_: &Vec<WalRecord>| Ok(());
    let mut engine = open_engine(1 << 20);
    engine.put(PlayerId::new(1), Bytes::from_static(b"a"), 1000, logged).unwrap();
    engine.put(PlayerId::new(1), Bytes::from_static(b"b"), 1000, logged).unwrap();
    assert_eq!(engine.total_entries(&read).unwrap(), 1);
    engine.force_flush();
    engine.put(PlayerId::new(1), Bytes::from_static(b"c"), 1000, logged).unwrap();
    assert_eq!(engine.total_entries(&read).unwrap(), 1);
    engine.delete(PlayerId::new(1), 1000, logged).unwrap();
    assert_eq!(engine.total_entries(&read).unwrap(), 0);
}

#[test]
fn the_second_hash_is_odd() {
    let key = PlayerId::new(0x517cc1b727220a95_9e3779b97f4a7c15);
    assert_eq!(BloomFilter::get_hash_pair(key), (0, 1));
    for i in 0..100u128 {
        assert_eq!(BloomFilter::get_hash_pair(PlayerId::new(i * 0x1234567890abcdef)).1 % 2, 1);
    }
}

#[test]
fn backups_copy_what_is_read() {
    let files: Files = RefCell::new(HashMap::new());
    let read = |id: u64, offset: u64, len: u64| read_of(&files, id, offset, len);
    let mut engine = open_engine(1 << 20);
    let keys: Vec<PlayerId> = (1..=3u128).map(PlayerId::new).collect();
    engine.put(keys[0], Bytes::from_static(b"1"), 0, |_| Ok(())).unwrap();
    engine.force_flush();
    engine.put(keys[1], Bytes::from_static(b"2"), 0, |_| Ok(())).unwrap();
    let mut listing = Vec::new();
    let mut flushes = 0;
    while engine.backup_step() == BackupStep::Flush {
        flushes += 1;
        let id = flushes as u64;
        engine
            .flush_memtable_to_sstable(BloomFilter::with_size(64, 2), |path, image| {
                let len = image.len() as u64;
                listing.push(TableFile { path: path.to_string(), id, len });
                files.borrow_mut().insert(id, image.to_vec());
                Ok(())
            })
            .unwrap();
    }
    assert_eq!(flushes, 2);
    assert_eq!(engine.stats(), (0, 0, 2));
    assert_eq!(engine.backup_step(), BackupStep::Copy);
    let copy = StorageEngine::open(EngineConfig::default(), &listing, None, &read).unwrap();
    for key in &keys {
        assert_eq!(copy.get(key, 0, &read).unwrap(), engine.get(key, 0, &read).unwrap());
    }
    assert_eq!(copy.get(&keys[1], 0, &read).unwrap(), Some(Bytes::from_static(b"2")));
}

#[test]
fn each_read_is_answered_by_itself() {
    let files: Files = RefCell::new(HashMap::new());
    let fails = RefCell::new(false);
    let read = |id: u64, offset: u64, len: u64| {
        if *fails.borrow() {
            Err(DbError::Io("unplugged".to_string()))
        } else {
            read_of(&files, id, offset, len)
        }
    };
    let mut engine = open_engine(1 << 20);
    let (stored, held) = (PlayerId::new(1), PlayerId::new(2));
    engine.put(stored, Bytes::from_static(b"1"), 0, |_| Ok(())).unwrap();
    engine.force_flush();
    engine
        .flush_memtable_to_sstable(BloomFilter::with_size(64, 2), |_, image| {
            files.borrow_mut().insert(1, image.to_vec());
            Ok(())
        })
        .unwrap();
    engine.put(held, Bytes::from_static(b"2"), 0, |_| Ok(())).unwrap();
    assert_eq!(engine.get(&stored, 0, &read).unwrap(), Some(Bytes::from_static(b"1")));
    *fails.borrow_mut() = true;
    assert_eq!(engine.get(&held, 0, &read).unwrap(), Some(Bytes::from_static(b"2")));
    assert_eq!(engine.get(&stored, 0, &read).unwrap_err(), DbError::Io("unplugged".to_string()));
    assert!(engine.scan(None, None, 10, 0, &read).is_err());
    assert_eq!(engine.scan(None, None, 0, 0, &read).unwrap(), vec![]);
    assert_eq!(engine.get_ttl(&stored, 0, &read), -2);
    assert_eq!(engine.get_ttl(&held, 0, &read), -1);
    assert!(!engine.set_expire(&stored, 5, 0, &read));
    let filter = BloomFilter::with_size(64, 2);
    assert_eq!(engine.run_compaction(filter, &read, |_, _| Ok(())).unwrap(), Vec::<String>::new());
    *fails.borrow_mut() = false;
    assert_eq!(engine.scan(None, None, 10, 0, &read).unwrap().len(), 2);
}

#[test]
fn engines_are_kept_as_told() {
    let config = EngineConfig {
        db_path: "here".to_string(),
        memtable_max_bytes: 9,
        l0_compaction_trigger: 3,
        wal_config: WalConfig { commit_delay_us: 4, async_fsync: true },
    };
    let read = |_: u64, _: u64, _: u64| Ok(vec![]);
    let engine = StorageEngine::open(config, &vec![], None, &read).unwrap();
    assert_eq!(engine.config().db_path, "here");
    assert_eq!(engine.config().l0_compaction_trigger, 3);
    assert_eq!(engine.config().wal_config, WalConfig { commit_delay_us: 4, async_fsync: true });
}
