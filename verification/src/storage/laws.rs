//! What holds of the engine as a whole: what a read gives after a write, after a flush, after
//! recovery from the log, and while keys expire.
use vstd::prelude::*;

use crate::storage::bloom_filter::BloomView;
use crate::storage::engine::{EngineView, OpView};
use crate::storage::sstable::{FileView, Reads, TableView};
use crate::storage::wal::RecordView;
use crate::storage::{engine, memtable, sstable, wal};
use crate::types::{EntryView, ErrorView};

verus! {

// ---------------------------------------------------------------------------------------------
// Reads after writes
// ---------------------------------------------------------------------------------------------
/// The last operation on a key.
pub open spec fn last_op(ops: Seq<OpView>, key: u128) -> Option<OpView>
    decreases ops.len(),
{
    if ops.len() == 0 {
        None
    } else if ops.last().key == key {
        Some(ops.last())
    } else {
        last_op(ops.drop_last(), key)
    }
}

pub proof fn lemma_applied(
    m: Map<u128, EntryView>,
    ops: Seq<OpView>,
    seq_num: u64,
    timestamp: u64,
    key: u128,
)
    ensures
        match last_op(ops, key) {
            None => engine::applied(m, ops, seq_num, timestamp).contains_key(key)
                == m.contains_key(key) && engine::applied(m, ops, seq_num, timestamp)[key] == m[key],
            Some(o) => engine::applied(m, ops, seq_num, timestamp).contains_key(key)
                && engine::applied(m, ops, seq_num, timestamp)[key] == engine::op_entry(
                o,
                seq_num,
                timestamp,
            ),
        },
        m.dom().finite() ==> engine::applied(m, ops, seq_num, timestamp).dom().finite(),
        ops.len() > 0 ==> engine::applied(m, ops, seq_num, timestamp).contains_key(ops.last().key),
    decreases ops.len(),
{
    if ops.len() > 0 {
        lemma_applied(m, ops.drop_last(), seq_num, timestamp, key);
    }
}

/// Rotating the memory table changes no read.
pub proof fn law_rotation_keeps_reads(
    v: EngineView,
    files: spec_fn(u64) -> FileView,
    key: u128,
    now_secs: u64,
)
    requires
        v.memory.dom().finite(),
    ensures
        engine::newest_entry(engine::rotated(v), files, key) == engine::newest_entry(v, files, key),
        engine::value_of(engine::rotated(v), files, key, now_secs) == engine::value_of(
            v,
            files,
            key,
            now_secs,
        ),
{
    if v.memory.len() != 0 {
        let w = engine::rotated(v);
        assert(w.waiting.drop_last() =~= v.waiting);
        assert(w.waiting.last() == v.memory);
        reveal_with_fuel(engine::in_waiting, 2);
    }
}

/// After a batch that is in the log, a read of a key gives what the last operation of the batch on
/// that key left: the value of a put, nothing after a delete. A key that has expired reads as
/// nothing.
pub proof fn law_batch_is_read(
    v: EngineView,
    ops: Seq<OpView>,
    seq_num: u64,
    timestamp: u64,
    files: spec_fn(u64) -> FileView,
    key: u128,
    now_secs: u64,
)
    requires
        v.memory.dom().finite(),
        last_op(ops, key) is Some,
    ensures
        engine::value_of(
            engine::after_batch(v, ops, seq_num, timestamp),
            files,
            key,
            now_secs,
        ) == (if engine::expired(v.ttls, key, now_secs) {
            Ok::<Option<Seq<u8>>, ErrorView>(None)
        } else {
            Ok(engine::op_entry(last_op(ops, key).unwrap(), seq_num, timestamp).value)
        }),
{
    lemma_applied(v.memory, ops, seq_num, timestamp, key);
    let w = EngineView {
        memory: engine::applied(v.memory, ops, seq_num, timestamp),
        memory_size: engine::applied_size(v.memory_size, ops),
        ..v
    };
    law_rotation_keeps_reads(w, files, key, now_secs);
}

/// After a batch that is in the log, a read of a key that the batch mentions is answered from memory:
/// no reading of files can change it.
pub proof fn law_batch_is_read_from_memory(
    v: EngineView,
    ops: Seq<OpView>,
    seq_num: u64,
    timestamp: u64,
    can: Reads,
    key: u128,
    now_secs: u64,
    got: core::result::Result<Option<Seq<u8>>, ErrorView>,
)
    requires
        v.memory.dom().finite(),
        last_op(ops, key) is Some,
        engine::value_gives(
            can,
            engine::after_batch(v, ops, seq_num, timestamp),
            key,
            now_secs,
            got,
        ),
    ensures
        got == (if engine::expired(v.ttls, key, now_secs) {
            Ok::<Option<Seq<u8>>, ErrorView>(None)
        } else {
            Ok(engine::op_entry(last_op(ops, key).unwrap(), seq_num, timestamp).value)
        }),
{
    lemma_applied(v.memory, ops, seq_num, timestamp, key);
    let w = EngineView {
        memory: engine::applied(v.memory, ops, seq_num, timestamp),
        memory_size: engine::applied_size(v.memory_size, ops),
        ..v
    };
    let after = engine::after_batch(v, ops, seq_num, timestamp);
    assert(w.memory.contains_key(key));
    if after.waiting.len() > w.waiting.len() {
        assert(after.waiting.last() == w.memory);
    }
    assert(after.memory.contains_key(key) || engine::in_waiting(after.waiting, key) == Some(
        w.memory[key],
    ));
}

/// A batch changes no read of a key that it does not mention.
pub proof fn law_batch_keeps_other_keys(
    v: EngineView,
    ops: Seq<OpView>,
    seq_num: u64,
    timestamp: u64,
    files: spec_fn(u64) -> FileView,
    key: u128,
    now_secs: u64,
)
    requires
        v.memory.dom().finite(),
        last_op(ops, key) is None,
    ensures
        engine::value_of(
            engine::after_batch(v, ops, seq_num, timestamp),
            files,
            key,
            now_secs,
        ) == engine::value_of(v, files, key, now_secs),
{
    lemma_applied(v.memory, ops, seq_num, timestamp, key);
    let w = EngineView {
        memory: engine::applied(v.memory, ops, seq_num, timestamp),
        memory_size: engine::applied_size(v.memory_size, ops),
        ..v
    };
    law_rotation_keeps_reads(w, files, key, now_secs);
}

/// A value that was put, and is in the log, is read back, unless its key has expired.
pub proof fn law_put_is_read(
    v: EngineView,
    key: u128,
    value: Seq<u8>,
    seq_num: u64,
    timestamp: u64,
    files: spec_fn(u64) -> FileView,
    now_secs: u64,
)
    requires
        v.memory.dom().finite(),
        !engine::expired(v.ttls, key, now_secs),
    ensures
        engine::value_of(
            engine::after_batch(v, engine::put_ops(key, value), seq_num, timestamp),
            files,
            key,
            now_secs,
        ) == Ok::<Option<Seq<u8>>, ErrorView>(Some(value)),
{
    let ops = engine::put_ops(key, value);
    assert(last_op(ops, key) == Some(ops.last()));
    law_batch_is_read(v, ops, seq_num, timestamp, files, key, now_secs);
}

/// After a delete nothing is read.
pub proof fn law_deleted_key_is_gone(
    v: EngineView,
    key: u128,
    seq_num: u64,
    timestamp: u64,
    files: spec_fn(u64) -> FileView,
    now_secs: u64,
)
    requires
        v.memory.dom().finite(),
    ensures
        engine::value_of(
            engine::after_batch(v, engine::delete_ops(key), seq_num, timestamp),
            files,
            key,
            now_secs,
        ) == Ok::<Option<Seq<u8>>, ErrorView>(None),
{
    let ops = engine::delete_ops(key);
    assert(last_op(ops, key) == Some(ops.last()));
    law_batch_is_read(v, ops, seq_num, timestamp, files, key, now_secs);
}

// ---------------------------------------------------------------------------------------------
// Recovery
// ---------------------------------------------------------------------------------------------
/// Two memory tables hold the same values under the same keys.
pub open spec fn same_values(a: Map<u128, EntryView>, b: Map<u128, EntryView>) -> bool {
    &&& a.dom() == b.dom()
    &&& forall|k: u128| #[trigger] a.contains_key(k) ==> a[k].value == b[k].value
}

/// The entries of some records.
pub open spec fn record_entries(s: Seq<RecordView>) -> Seq<(u128, EntryView)> {
    s.map_values(|r: RecordView| wal::record_entry(r))
}

/// Recovery from a log that ends in the records of a batch gives the values that the batch left in
/// memory.
pub proof fn law_replaying_a_batch_is_applying_it(
    logged: Seq<RecordView>,
    memory: Map<u128, EntryView>,
    ops: Seq<OpView>,
    first_seq: u64,
    timestamp: u64,
)
    requires
        same_values(engine::loaded(record_entries(logged)), memory),
    ensures
        same_values(
            engine::loaded(
                record_entries(logged + engine::batch_records(ops, first_seq, timestamp)),
            ),
            engine::applied(memory, ops, first_seq, timestamp),
        ),
    decreases ops.len(),
{
    let records = engine::batch_records(ops, first_seq, timestamp);
    if ops.len() == 0 {
        assert(logged + records =~= logged);
    } else {
        let head = engine::batch_records(ops.drop_last(), first_seq, timestamp);
        law_replaying_a_batch_is_applying_it(
            logged,
            memory,
            ops.drop_last(),
            first_seq,
            timestamp,
        );
        assert(records.drop_last() =~= head);
        let all = record_entries(logged + records);
        assert(all.drop_last() =~= record_entries(logged + head));
        let last = records.last();
        assert(all.last() == wal::record_entry(last));
        let a = engine::loaded(all);
        let b = engine::applied(memory, ops, first_seq, timestamp);
        assert(a.dom() =~= b.dom());
    }
}

/// The last record under a key.
pub open spec fn last_record(s: Seq<RecordView>, key: u128) -> Option<RecordView>
    decreases s.len(),
{
    if s.len() == 0 {
        None
    } else if s.last().key == key {
        Some(s.last())
    } else {
        last_record(s.drop_last(), key)
    }
}

proof fn lemma_loaded(s: Seq<RecordView>, key: u128)
    ensures
        engine::loaded(record_entries(s)).contains_key(key) <==> last_record(s, key) is Some,
        last_record(s, key) matches Some(r) ==> engine::loaded(record_entries(s))[key]
            == wal::record_entry(r).1,
    decreases s.len(),
{
    if s.len() > 0 {
        lemma_loaded(s.drop_last(), key);
        assert(record_entries(s).drop_last() =~= record_entries(s.drop_last()));
        assert(record_entries(s).last() == wal::record_entry(s.last()));
    }
}

/// What is in the log survives: after recovery a read of a key gives what the last record under it
/// says.
pub proof fn law_logged_writes_survive(
    s: Seq<RecordView>,
    v: EngineView,
    files: spec_fn(u64) -> FileView,
    key: u128,
    now_secs: u64,
)
    requires
        forall|i: int|
            0 <= i < s.len() ==> wal::RECORD_FIXED_SIZE + wal::value_bytes(
                (#[trigger] s[i]).value,
            ).len() < 0x1_0000_0000,
        engine::log_contents(Some(wal::log_bytes(s))) matches Ok(log) && v.memory == engine::loaded(
            log.0,
        ),
        v.ttls == Map::<u128, u64>::empty(),
        last_record(s, key) is Some,
    ensures
        engine::value_of(v, files, key, now_secs) == Ok::<Option<Seq<u8>>, ErrorView>(
            wal::record_entry(last_record(s, key).unwrap()).1.value,
        ),
{
    wal::law_recovery_gives_back_the_records(s);
    lemma_loaded(s, key);
}

// ---------------------------------------------------------------------------------------------
// Flushing
// ---------------------------------------------------------------------------------------------
/// A list of a memory table's entries finds what the table holds.
pub proof fn lemma_listed_lookup(s: Seq<(u128, EntryView)>, m: Map<u128, EntryView>, key: u128)
    requires
        memtable::lists_range(s, m, None, None),
    ensures
        sstable::lookup(s, key) == (if m.contains_key(key) {
            Some(m[key])
        } else {
            None
        }),
{
    assert(sstable::in_range(key, None, None));
    if m.contains_key(key) {
        let i = choose|i: int| 0 <= i < s.len() && (#[trigger] s[i]).0 == key;
        sstable::lemma_lookup_at(s, i);
    } else {
        assert forall|i: int| 0 <= i < s.len() implies (#[trigger] s[i]).0 != key by {
            assert(m.contains_key(s[i].0));
        }
        sstable::lemma_lookup_absent(s, key);
    }
}

proof fn lemma_waiting_first(waiting: Seq<Map<u128, EntryView>>, key: u128)
    requires
        waiting.len() > 0,
    ensures
        engine::in_waiting(waiting, key) == (match engine::in_waiting(waiting.skip(1), key) {
            Some(e) => Some(e),
            None => if waiting[0].contains_key(key) {
                Some(waiting[0][key])
            } else {
                None
            },
        }),
    decreases waiting.len(),
{
    if waiting.len() == 1 {
        assert(waiting.skip(1) =~= Seq::empty());
        assert(waiting.drop_last() =~= Seq::empty());
        reveal_with_fuel(engine::in_waiting, 2);
    } else {
        lemma_waiting_first(waiting.drop_last(), key);
        assert(waiting.drop_last().skip(1) =~= waiting.skip(1).drop_last());
        assert(waiting.skip(1).last() == waiting.last());
    }
}

proof fn lemma_tables_same(
    tables: Seq<TableView>,
    more: Seq<TableView>,
    files: spec_fn(u64) -> FileView,
    with_file: spec_fn(u64) -> FileView,
    key: u128,
    i: int,
)
    requires
        0 <= i,
        more.len() == tables.len() + 1,
        more.skip(1) == tables,
        forall|j: int|
            0 <= j < tables.len() ==> with_file((#[trigger] tables[j]).id) == files(tables[j].id),
    ensures
        engine::in_tables(more, with_file, key, i + 1) == engine::in_tables(tables, files, key, i),
    decreases tables.len() - i,
{
    if i < tables.len() {
        assert(more.skip(1)[i] == more[i + 1]);
        lemma_tables_same(tables, more, files, with_file, key, i + 1);
    }
}

proof fn lemma_greatest_key(keys: Set<u128>) -> (max: u128)
    requires
        keys.finite(),
        keys.len() > 0,
    ensures
        keys.contains(max),
        forall|k: u128| #[trigger] keys.contains(k) ==> k <= max,
    decreases keys.len(),
{
    let one = keys.choose();
    let rest = keys.remove(one);
    if rest.len() == 0 {
        assert forall|k: u128| #[trigger] keys.contains(k) implies k <= one by {
            if k != one {
                assert(rest.contains(k));
            }
        }
        one
    } else {
        let other = lemma_greatest_key(rest);
        let max = if one > other {
            one
        } else {
            other
        };
        assert forall|k: u128| #[trigger] keys.contains(k) implies k <= max by {
            if k != one {
                assert(rest.contains(k));
            }
        }
        max
    }
}

proof fn lemma_some_list(m: Map<u128, EntryView>) -> (s: Seq<(u128, EntryView)>)
    requires
        m.dom().finite(),
    ensures
        memtable::lists_range(s, m, None, None),
    decreases m.dom().len(),
{
    if m.dom().len() == 0 {
        assert forall|k: u128| !(#[trigger] m.contains_key(k)) by {
            assert(m.dom() =~= Set::empty());
        }
        Seq::empty()
    } else {
        let max = lemma_greatest_key(m.dom());
        let rest = m.remove(max);
        let head = lemma_some_list(rest);
        let s = head.push((max, m[max]));
        assert forall|i: int| 0 <= i < head.len() implies (#[trigger] head[i]).0 < max by {
            assert(rest.contains_key(head[i].0));
            assert(m.dom().contains(head[i].0));
        }
        assert forall|k: u128| #[trigger] m.contains_key(k) implies exists|i: int|
            0 <= i < s.len() && (#[trigger] s[i]).0 == k by {
            if k == max {
                assert(s[head.len() as int].0 == k);
            } else {
                assert(sstable::in_range(k, None, None) && rest.contains_key(k));
                let i = choose|i: int| 0 <= i < head.len() && (#[trigger] head[i]).0 == k;
                assert(s[i].0 == k);
            }
        }
        assert forall|i: int| 0 <= i < s.len() implies m.contains_key((#[trigger] s[i]).0)
            && m[s[i].0] == s[i].1 by {
            if i < head.len() {
                assert(s[i] == head[i]);
                assert(rest.contains_key(head[i].0));
            }
        }
        assert forall|i: int, j: int| 0 <= i < j < s.len() implies (#[trigger] s[i]).0
            < (#[trigger] s[j]).0 by {
            assert(s[i] == head[i]);
            if j < head.len() {
                assert(s[j] == head[j]);
            }
        }
        s
    }
}

/// A memory table has one list of its entries in ascending order.
pub proof fn law_memory_has_a_list(m: Map<u128, EntryView>)
    requires
        m.dom().finite(),
    ensures
        memtable::lists_range(memtable::sorted_range(m, None, None), m, None, None),
{
    let s = lemma_some_list(m);
}

/// A flush changes no read: what the memory table that is flushed held is found in the new table.
/// The new file has a number that no other table has, and the other files stay as they are.
pub proof fn law_flush_keeps_reads(
    v: EngineView,
    path: Seq<char>,
    t: TableView,
    empty_bloom: BloomView,
    bloom: BloomView,
    files: spec_fn(u64) -> FileView,
    with_file: spec_fn(u64) -> FileView,
    key: u128,
    now_secs: u64,
)
    requires
        v.waiting.len() > 0,
        v.waiting[0].dom().finite(),
        v.waiting[0].len() > 0,
        empty_bloom.bytes.len() > 0,
        sstable::all_inserted(empty_bloom, memtable::sorted_range(v.waiting[0], None, None), bloom),
        sstable::lengths_fit(
            memtable::sorted_range(v.waiting[0], None, None),
            sstable::DEFAULT_BLOCK_SIZE as nat,
            bloom,
        ),
        sstable::opened_image(
            path,
            sstable::file_bytes(
                memtable::sorted_range(v.waiting[0], None, None),
                sstable::DEFAULT_BLOCK_SIZE as nat,
                bloom,
            ),
            v.next_sst_id,
            0,
        ) == Ok::<TableView, ErrorView>(t),
        with_file(v.next_sst_id) == sstable::file_of(
            sstable::file_bytes(
                memtable::sorted_range(v.waiting[0], None, None),
                sstable::DEFAULT_BLOCK_SIZE as nat,
                bloom,
            ),
        ),
        forall|i: int| 0 <= i < v.tables.len() ==> (#[trigger] v.tables[i]).id != v.next_sst_id,
        forall|id: u64| id != v.next_sst_id ==> #[trigger] with_file(id) == files(id),
    ensures
        engine::value_of(
            EngineView {
                waiting: v.waiting.skip(1),
                tables: seq![t] + v.tables,
                next_sst_id: v.next_sst_id.wrapping_add(1),
                ..v
            },
            with_file,
            key,
            now_secs,
        ) == engine::value_of(v, files, key, now_secs),
{
    let m = v.waiting[0];
    let s = memtable::sorted_range(m, None, None);
    let target = sstable::DEFAULT_BLOCK_SIZE as nat;
    law_memory_has_a_list(m);
    if s.len() == 0 {
        let k = lemma_greatest_key(m.dom());
        assert(sstable::in_range(k, None, None) && m.contains_key(k));
    }
    lemma_listed_lookup(s, m, key);
    sstable::law_built_table_opens(path, v.next_sst_id, 0, s, target, bloom);
    sstable::law_built_table_finds(path, v.next_sst_id, 0, s, target, empty_bloom, bloom, key);
    lemma_waiting_first(v.waiting, key);
    let more = seq![t] + v.tables;
    assert(more.skip(1) =~= v.tables);
    assert(more[0] == t);
    lemma_tables_same(v.tables, more, files, with_file, key, 0);
}

/// A key that expires at some time is read until then and not from then on; no other key is
/// touched.
pub proof fn law_expiring_key_is_read_until_then(
    v: EngineView,
    key: u128,
    at: u64,
    files: spec_fn(u64) -> FileView,
    other: u128,
    now_secs: u64,
)
    requires
        !engine::expired(v.ttls, key, now_secs),
    ensures
        engine::value_of(
            EngineView { ttls: v.ttls.insert(key, at), ..v },
            files,
            other,
            now_secs,
        ) == (if other == key && now_secs >= at {
            Ok::<Option<Seq<u8>>, ErrorView>(None)
        } else {
            engine::value_of(v, files, other, now_secs)
        }),
{
    let after = EngineView { ttls: v.ttls.insert(key, at), ..v };
    assert(engine::newest_entry(after, files, other) == engine::newest_entry(v, files, other));
}

} // verus!
