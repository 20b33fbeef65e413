use std::cell::RefCell;
use std::collections::HashMap;

use bytes::Bytes;
use uuid::Uuid;

use fluxdb::index::secondary::IndexManager;
use fluxdb::storage::bloom_filter::BloomFilter;
use fluxdb::storage::engine::{EngineConfig, StorageEngine, WorkerStep};
use fluxdb::storage::sstable::{read_slice, SsTableBuilder};
use fluxdb::storage::wal::{WalConfig, WalRecord, WalRecovery, WalWriter};
use fluxdb::types::{DbError, OpType, PlayerId, ValueEntry};

fn sized_filter(expected_items: usize, fp_rate: f64) -> BloomFilter {
    let n = expected_items.max(1) as f64;
    let p = fp_rate.clamp(0.0001, 0.5);
    let ln2_sq = std::f64::consts::LN_2 * std::f64::consts::LN_2;
    let num_bits = (((-1.0 * n * p.ln()) / ln2_sq).ceil() as usize).max(64);
    let num_hashes = (((num_bits as f64 / n) * std::f64::consts::LN_2).round() as u8).clamp(1, 30);
    BloomFilter::with_size(num_bits, num_hashes)
}

#[test]
fn test_bloom_filter_accuracy() {
    let mut bf = sized_filter(1000, 0.01);
    let mut inserted = Vec::new();

    for i in 0..1000u128 {
        let key = PlayerId::new(i);
        bf.insert(key);
        inserted.push(key);
    }

    for key in &inserted {
        assert!(bf.contains(*key));
    }

    let mut fp_count = 0;
    let test_count = 10000;
    for i in 1000..1000 + test_count {
        let key = PlayerId::new(i);
        if bf.contains(key) {
            fp_count += 1;
        }
    }

    let rate = fp_count as f64 / test_count as f64;
    assert!(rate < 0.03, "FP rate too high: {}", rate);
}

#[test]
fn test_wal_write_and_recovery() {
    let p1 = PlayerId::from_uuid(Uuid::new_v4());
    let p2 = PlayerId::from_uuid(Uuid::new_v4());

    let mut log: Vec<u8> = Vec::new();
    {
        let mut wal = WalWriter::open(1, WalConfig::default());
        let (_, _, first) = wal.append_batch(
            vec![
                (p1, Some(Bytes::from_static(b"{\"kills\": 10}")), OpType::Put),
                (p2, Some(Bytes::from_static(b"{\"kills\": 25}")), OpType::Put),
            ],
            5000,
        );
        log.extend_from_slice(&WalWriter::group_bytes(&vec![first]));
        let (_, _, second) = wal.append_batch(vec![(p1, None, OpType::Delete)], 5001);
        log.extend_from_slice(&WalWriter::group_bytes(&vec![second]));
        wal.close();
    }

    let (entries, next_seq) = WalRecovery::recover(Some(&log)).unwrap();
    assert_eq!(entries.len(), 3);
    assert_eq!(next_seq, 4);

    let p1_entry = entries.iter().filter(|(k, _)| *k == p1).last().unwrap().1.clone();
    let p2_entry = entries.iter().filter(|(k, _)| *k == p2).last().unwrap().1.clone();

    assert!(p1_entry.is_tombstone());
    assert_eq!(p2_entry.value, Some(Bytes::from_static(b"{\"kills\": 25}")));
}

#[test]
fn test_sstable_build_and_lookup() {
    let mut entries = Vec::new();
    for i in 0..1000u128 {
        let key = PlayerId::new(i * 10);
        let val = Bytes::from(format!("{{\"index\": {}}}", i));
        entries.push((key, ValueEntry::put(val, (i + 1) as u64, 1000)));
    }

    let builder = SsTableBuilder::new("000001.sst", 1, 0);
    let (image, sst) = builder
        .build(&entries, sized_filter(entries.len(), 0.01))
        .unwrap()
        .unwrap();
    let read = |_: u64, offset: u64, len: u64| read_slice(&image, offset, len);

    for i in 0..1000u128 {
        let key = PlayerId::new(i * 10);
        let found = sst.get(&key, &read).unwrap();
        assert!(found.is_some());
        assert_eq!(found.unwrap().value.unwrap(), Bytes::from(format!("{{\"index\": {}}}", i)));
    }

    for i in 0..500u128 {
        let non_existing = PlayerId::new(i * 10 + 1);
        let found = sst.get(&non_existing, &read).unwrap();
        assert!(found.is_none());
    }
}

#[test]
fn test_engine_put_get_delete_flush() {
    let files: RefCell<HashMap<u64, Vec<u8>>> = RefCell::new(HashMap::new());
    let read = |id: u64, offset: u64, len: u64| match files.borrow().get(&id) {
        Some(data) => read_slice(data, offset, len),
        None => Err(DbError::Io("no such file".to_string())),
    };
    let log: RefCell<Vec<u8>> = RefCell::new(Vec::new());
    let write = |records: &Vec<WalRecord>| {
        let copy = records
            .iter()
            .map(|r| WalRecord {
                seq_num: r.seq_num,
                timestamp: r.timestamp,
                op_type: r.op_type,
                key: r.key,
                value: r.value.clone(),
            })
            .collect();
        log.borrow_mut().extend_from_slice(&WalWriter::group_bytes(&vec![copy]));
        Ok(())
    };
    let config = EngineConfig {
        db_path: "data".to_string(),
        memtable_max_bytes: 4096,
        l0_compaction_trigger: 4,
        wal_config: WalConfig::default(),
    };

    let mut engine = StorageEngine::open(config, &vec![], None, &read).unwrap();

    let p1 = PlayerId::from_uuid(Uuid::new_v4());
    let p2 = PlayerId::from_uuid(Uuid::new_v4());

    engine.put(p1, Bytes::from_static(b"{\"score\": 100}"), 1000, &write).unwrap();
    engine.put(p2, Bytes::from_static(b"{\"score\": 200}"), 1000, &write).unwrap();

    assert_eq!(engine.get(&p1, 1, &read).unwrap(), Some(Bytes::from_static(b"{\"score\": 100}")));
    assert_eq!(engine.get(&p2, 1, &read).unwrap(), Some(Bytes::from_static(b"{\"score\": 200}")));

    engine.force_flush();
    assert_eq!(engine.worker_step(WorkerStep::Wait), WorkerStep::Flush);
    let size = engine.flush_size();
    assert_eq!(size, 2);
    engine
        .flush_memtable_to_sstable(sized_filter(size, 0.01), |path, image| {
            assert_eq!(path, "data/000001.sst");
            files.borrow_mut().insert(1, image.to_vec());
            Ok(())
        })
        .unwrap();
    assert_eq!(engine.stats(), (0, 0, 1));

    assert_eq!(engine.get(&p1, 1, &read).unwrap(), Some(Bytes::from_static(b"{\"score\": 100}")));

    engine.delete(p1, 1000, &write).unwrap();
    assert_eq!(engine.get(&p1, 1, &read).unwrap(), None);
    assert_eq!(engine.get(&p2, 1, &read).unwrap(), Some(Bytes::from_static(b"{\"score\": 200}")));
}

#[test]
fn test_secondary_index_ranking() {
    let mut manager = IndexManager::new();
    manager.create_index("stats.kills");

    let p1 = PlayerId::new(101);
    let p2 = PlayerId::new(102);
    let p3 = PlayerId::new(103);

    manager.on_put(p1, br#"{"stats": {"kills": 50}}"#);
    manager.on_put(p2, br#"{"stats": {"kills": 350}}"#);
    manager.on_put(p3, br#"{"stats": {"kills": 150}}"#);

    let top = manager.get_index("stats.kills").unwrap().get_top(10);
    assert_eq!(top.len(), 3);
    assert_eq!(top[0].0, p2);
    assert_eq!(top[1].0, p3);
    assert_eq!(top[2].0, p1);

    manager.on_put(p1, br#"{"stats": {"kills": 500}}"#);
    let index = manager.get_index("stats.kills").unwrap();
    let top_after = index.get_top(10);
    assert_eq!(top_after[0].0, p1);
    assert_eq!(f64::from_bits(top_after[0].1), 500.0);

    let rank_p1 = index.get_rank(&p1).unwrap();
    assert_eq!(rank_p1.0, 1);
    assert_eq!(f64::from_bits(rank_p1.1), 500.0);
}
