//! The order that an engine keeps from write to compaction: what is newer is found first.
use vstd::prelude::*;

use crate::storage::bloom_filter::BloomView;
use crate::storage::engine::{EngineView, OpView};
use crate::storage::sstable::{FileView, TableView};
use crate::storage::{compaction, engine, iterator, laws, levels, memtable, sstable, wal};
use crate::types::{EntryView, ErrorView, PlayerId};

verus! {

/// An entry under a key is older than what the memory tables from the `from`-th that waits on hold
/// under it, and than what is written next.
pub open spec fn older_than_memory(v: EngineView, e: EntryView, key: u128, from: int) -> bool {
    &&& e.seq_num < v.next_seq
    &&& v.memory.contains_key(key) ==> e.seq_num < v.memory[key].seq_num
    &&& forall|i: int|
        from <= i < v.waiting.len() && (#[trigger] v.waiting[i]).contains_key(key) ==> e.seq_num
            < v.waiting[i][key].seq_num
}

/// An entry of a table under a key is not newer than what the memory tables hold under it, and older
/// than what is written next.
pub open spec fn not_newer(v: EngineView, e: EntryView, key: u128) -> bool {
    &&& e.seq_num < v.next_seq
    &&& v.memory.contains_key(key) ==> e.seq_num <= v.memory[key].seq_num
    &&& forall|i: int|
        0 <= i < v.waiting.len() && (#[trigger] v.waiting[i]).contains_key(key) ==> e.seq_num
            <= v.waiting[i][key].seq_num
}

/// A memory table holds something under a key.
pub open spec fn in_memory(v: EngineView, key: u128) -> bool {
    v.memory.contains_key(key) || exists|i: int|
        0 <= i < v.waiting.len() && (#[trigger] v.waiting[i]).contains_key(key)
}

/// The order of an engine: the tables stand in order, the memory tables hold what is at least as
/// new as the tables, each what is newer than those before it, and under every key what a lookup
/// finds first is the newest; numbers not given yet are higher.
pub open spec fn newest_first(v: EngineView, files: spec_fn(u64) -> FileView) -> bool {
    &&& levels::in_order(v.tables, files)
    &&& forall|i: int| 0 <= i < v.tables.len() ==> (#[trigger] v.tables[i]).id < v.next_sst_id
    &&& v.memory.dom().finite()
    &&& forall|i: int| 0 <= i < v.waiting.len() ==> (#[trigger] v.waiting[i]).dom().finite()
    &&& forall|key: u128| #[trigger]
        v.memory.contains_key(key) ==> v.memory[key].seq_num < v.next_seq
    &&& forall|i: int, key: u128|
        0 <= i < v.waiting.len() && #[trigger] v.waiting[i].contains_key(key) ==> older_than_memory(
            v,
            v.waiting[i][key],
            key,
            i + 1,
        )
    &&& forall|i: int, key: u128|
        0 <= i < v.tables.len() && #[trigger] levels::found(v.tables[i], files, key) is Some
            ==> not_newer(v, levels::found(v.tables[i], files, key).unwrap(), key)
    &&& forall|key: u128|
        #![trigger in_memory(v, key)]
        #![trigger levels::settled(v.tables, files, key)]
        in_memory(v, key) || levels::settled(v.tables, files, key)
}

/// A batch keeps the order, as long as the sequence numbers have not run out.
pub proof fn law_batch_keeps_the_order(
    v: EngineView,
    ops: Seq<OpView>,
    now_ms: u64,
    files: spec_fn(u64) -> FileView,
)
    requires
        newest_first(v, files),
        v.next_seq + ops.len() <= u64::MAX,
    ensures
        newest_first(
            engine::after_batch(
                EngineView { next_seq: wal::seq_after(v.next_seq, ops.len() as int), ..v },
                ops,
                v.next_seq,
                now_ms,
            ),
            files,
        ),
{
    let numbered = EngineView { next_seq: wal::seq_after(v.next_seq, ops.len() as int), ..v };
    assert(numbered.next_seq == v.next_seq + ops.len());
    lemma_later(v, numbered, files);
    if ops.len() > 0 {
        let w = EngineView {
            memory: engine::applied(v.memory, ops, v.next_seq, now_ms),
            memory_size: engine::applied_size(v.memory_size, ops),
            ..numbered
        };
        lemma_applied_order(v, numbered, ops, now_ms, files);
        law_rotation_keeps_the_order(w, files);
    }
}

/// Higher numbers to come change nothing.
proof fn lemma_later(v: EngineView, w: EngineView, files: spec_fn(u64) -> FileView)
    requires
        newest_first(v, files),
        w == (EngineView { next_seq: w.next_seq, ..v }),
        w.next_seq >= v.next_seq,
    ensures
        newest_first(w, files),
{
    assert forall|i: int, key: u128|
        0 <= i < w.waiting.len() && #[trigger] w.waiting[i].contains_key(
            key,
        ) implies older_than_memory(w, w.waiting[i][key], key, i + 1) by {
        assert(older_than_memory(v, v.waiting[i][key], key, i + 1));
    }
    assert forall|i: int, key: u128|
        0 <= i < w.tables.len() && #[trigger] levels::found(
            w.tables[i],
            files,
            key,
        ) is Some implies not_newer(w, levels::found(w.tables[i], files, key).unwrap(), key) by {
        assert(not_newer(v, levels::found(v.tables[i], files, key).unwrap(), key));
    }
    assert forall|key: u128| in_memory(w, key) || levels::settled(w.tables, files, key) by {
        assert(in_memory(v, key) || levels::settled(v.tables, files, key));
        if in_memory(v, key) && !v.memory.contains_key(key) {
            let i = choose|i: int|
                0 <= i < v.waiting.len() && (#[trigger] v.waiting[i]).contains_key(key);
            assert(w.waiting[i].contains_key(key));
        }
    }
}

proof fn lemma_applied_seq(
    m: Map<u128, EntryView>,
    ops: Seq<OpView>,
    seq_num: u64,
    timestamp: u64,
    key: u128,
)
    ensures
        m.dom().finite() ==> engine::applied(m, ops, seq_num, timestamp).dom().finite(),
        m.contains_key(key) ==> engine::applied(m, ops, seq_num, timestamp).contains_key(key),
        engine::applied(m, ops, seq_num, timestamp).contains_key(key) ==> (engine::applied(
            m,
            ops,
            seq_num,
            timestamp,
        )[key].seq_num == seq_num || m.contains_key(key) && engine::applied(
            m,
            ops,
            seq_num,
            timestamp,
        )[key] == m[key]),
    decreases ops.len(),
{
    if ops.len() > 0 {
        lemma_applied_seq(m, ops.drop_last(), seq_num, timestamp, key);
    }
}

proof fn lemma_applied_order(
    v: EngineView,
    numbered: EngineView,
    ops: Seq<OpView>,
    now_ms: u64,
    files: spec_fn(u64) -> FileView,
)
    requires
        newest_first(v, files),
        ops.len() > 0,
        numbered == (EngineView { next_seq: numbered.next_seq, ..v }),
        numbered.next_seq > v.next_seq,
    ensures
        newest_first(
            EngineView {
                memory: engine::applied(v.memory, ops, v.next_seq, now_ms),
                memory_size: engine::applied_size(v.memory_size, ops),
                ..numbered
            },
            files,
        ),
{
    let w = EngineView {
        memory: engine::applied(v.memory, ops, v.next_seq, now_ms),
        memory_size: engine::applied_size(v.memory_size, ops),
        ..numbered
    };
    lemma_applied_seq(v.memory, ops, v.next_seq, now_ms, 0);
    assert forall|key: u128| #[trigger] w.memory.contains_key(key) implies w.memory[key].seq_num
        < w.next_seq by {
        lemma_applied_seq(v.memory, ops, v.next_seq, now_ms, key);
    }
    assert forall|i: int, key: u128|
        0 <= i < w.waiting.len() && #[trigger] w.waiting[i].contains_key(
            key,
        ) implies older_than_memory(w, w.waiting[i][key], key, i + 1) by {
        assert(older_than_memory(v, v.waiting[i][key], key, i + 1));
        lemma_applied_seq(v.memory, ops, v.next_seq, now_ms, key);
    }
    assert forall|i: int, key: u128|
        0 <= i < w.tables.len() && #[trigger] levels::found(
            w.tables[i],
            files,
            key,
        ) is Some implies not_newer(w, levels::found(w.tables[i], files, key).unwrap(), key) by {
        assert(not_newer(v, levels::found(v.tables[i], files, key).unwrap(), key));
        lemma_applied_seq(v.memory, ops, v.next_seq, now_ms, key);
    }
    assert forall|key: u128| in_memory(w, key) || levels::settled(w.tables, files, key) by {
        assert(in_memory(v, key) || levels::settled(v.tables, files, key));
        lemma_applied_seq(v.memory, ops, v.next_seq, now_ms, key);
        if in_memory(v, key) && !v.memory.contains_key(key) {
            let i = choose|i: int|
                0 <= i < v.waiting.len() && (#[trigger] v.waiting[i]).contains_key(key);
            assert(w.waiting[i].contains_key(key));
        }
    }
}

/// Rotating the memory table keeps the order.
pub proof fn law_rotation_keeps_the_order(v: EngineView, files: spec_fn(u64) -> FileView)
    requires
        newest_first(v, files),
    ensures
        newest_first(engine::rotated(v), files),
{
    let w = engine::rotated(v);
    if v.memory.len() != 0 {
        assert forall|i: int| 0 <= i < w.waiting.len() implies (
        #[trigger] w.waiting[i]).dom().finite() by {
            if i < v.waiting.len() {
                assert(w.waiting[i] == v.waiting[i]);
            }
        }
        assert forall|i: int, key: u128|
            0 <= i < w.waiting.len() && #[trigger] w.waiting[i].contains_key(
                key,
            ) implies older_than_memory(w, w.waiting[i][key], key, i + 1) by {
            if i < v.waiting.len() {
                assert(w.waiting[i] == v.waiting[i]);
                lemma_rotated(v, v.waiting[i][key], key, i + 1);
            }
        }
        assert forall|i: int, key: u128|
            0 <= i < w.tables.len() && #[trigger] levels::found(
                w.tables[i],
                files,
                key,
            ) is Some implies not_newer(w, levels::found(w.tables[i], files, key).unwrap(), key) by {
            let e = levels::found(v.tables[i], files, key).unwrap();
            assert(not_newer(v, e, key));
            assert forall|j: int|
                0 <= j < w.waiting.len() && (#[trigger] w.waiting[j]).contains_key(
                    key,
                ) implies e.seq_num <= w.waiting[j][key].seq_num by {
                if j < v.waiting.len() {
                    assert(w.waiting[j] == v.waiting[j]);
                }
            }
        }
        assert forall|key: u128| in_memory(w, key) || levels::settled(w.tables, files, key) by {
            assert(in_memory(v, key) || levels::settled(v.tables, files, key));
            if v.memory.contains_key(key) {
                assert(w.waiting[v.waiting.len() as int].contains_key(key));
            } else if in_memory(v, key) {
                let i = choose|i: int|
                    0 <= i < v.waiting.len() && (#[trigger] v.waiting[i]).contains_key(key);
                assert(w.waiting[i].contains_key(key));
            }
        }
    }
}

proof fn lemma_rotated(v: EngineView, e: EntryView, key: u128, from: int)
    requires
        older_than_memory(v, e, key, from),
        0 <= from,
        v.memory.len() != 0,
    ensures
        older_than_memory(engine::rotated(v), e, key, from),
{
    let w = engine::rotated(v);
    assert forall|i: int|
        from <= i < w.waiting.len() && (#[trigger] w.waiting[i]).contains_key(
            key,
        ) implies e.seq_num < w.waiting[i][key].seq_num by {
        if i < v.waiting.len() {
            assert(w.waiting[i] == v.waiting[i]);
        }
    }
}

/// A flush keeps the order: the new table is the newest.
pub proof fn law_flush_keeps_the_order(
    v: EngineView,
    path: Seq<char>,
    t: TableView,
    empty_bloom: BloomView,
    bloom: BloomView,
    files: spec_fn(u64) -> FileView,
    with_file: spec_fn(u64) -> FileView,
)
    requires
        newest_first(v, files),
        v.waiting.len() > 0,
        v.waiting[0].len() > 0,
        v.next_sst_id < u64::MAX,
        empty_bloom.bytes.len() > 0,
        sstable::all_inserted(empty_bloom, memtable::sorted_range(v.waiting[0], None, None), bloom),
        sstable::lengths_fit(
            memtable::sorted_range(v.waiting[0], None, None),
            sstable::DEFAULT_BLOCK_SIZE as nat,
            bloom,
        ),
        sstable::opened_image(
            path,
            sstable::file_bytes(
                memtable::sorted_range(v.waiting[0], None, None),
                sstable::DEFAULT_BLOCK_SIZE as nat,
                bloom,
            ),
            v.next_sst_id,
            0,
        ) == Ok::<TableView, ErrorView>(t),
        with_file(v.next_sst_id) == sstable::file_of(
            sstable::file_bytes(
                memtable::sorted_range(v.waiting[0], None, None),
                sstable::DEFAULT_BLOCK_SIZE as nat,
                bloom,
            ),
        ),
        forall|i: int| 0 <= i < v.tables.len() ==> (#[trigger] v.tables[i]).path != path,
        forall|id: u64| id != v.next_sst_id ==> #[trigger] with_file(id) == files(id),
    ensures
        newest_first(
            EngineView {
                waiting: v.waiting.skip(1),
                tables: seq![t] + v.tables,
                next_sst_id: v.next_sst_id.wrapping_add(1),
                ..v
            },
            with_file,
        ),
{
    let m = v.waiting[0];
    let w = EngineView {
        waiting: v.waiting.skip(1),
        tables: seq![t] + v.tables,
        next_sst_id: v.next_sst_id.wrapping_add(1),
        ..v
    };
    lemma_flushed_found(v, path, t, empty_bloom, bloom, with_file, 0);
    assert(levels::readable(t, with_file(t.id)));
    assert forall|key: u128| #[trigger] levels::found(t, with_file, key) == (if m.contains_key(key) {
        Some(m[key])
    } else {
        None
    }) by {
        lemma_flushed_found(v, path, t, empty_bloom, bloom, with_file, key);
    }
    lemma_tables_keep(v.tables, files, with_file, v.next_sst_id);
    assert(seq![t] + v.tables =~= v.tables.insert(0, t));
    levels::lemma_insert_order(v.tables, t, 0, with_file);
    assert forall|i: int| 0 <= i < w.tables.len() implies (#[trigger] w.tables[i]).id
        < w.next_sst_id by {
        if i > 0 {
            assert(w.tables[i] == v.tables[i - 1]);
        }
    }
    assert forall|i: int| 0 <= i < w.waiting.len() implies (
    #[trigger] w.waiting[i]).dom().finite() by {
        assert(w.waiting[i] == v.waiting[i + 1]);
    }
    assert forall|i: int, key: u128|
        0 <= i < w.waiting.len() && #[trigger] w.waiting[i].contains_key(
            key,
        ) implies older_than_memory(w, w.waiting[i][key], key, i + 1) by {
        assert(w.waiting[i] == v.waiting[i + 1]);
        assert(v.waiting[i + 1].contains_key(key));
        lemma_skipped(v, w, v.waiting[i + 1][key], key, i + 2);
    }
    assert forall|i: int, key: u128|
        0 <= i < w.tables.len() && #[trigger] levels::found(
            w.tables[i],
            with_file,
            key,
        ) is Some implies not_newer(w, levels::found(w.tables[i], with_file, key).unwrap(), key) by {
        if i == 0 {
            assert(v.waiting[0].contains_key(key));
            lemma_skipped(v, w, m[key], key, 1);
            assert(older_than_memory(w, m[key], key, 0));
        } else {
            let b = v.tables[i - 1];
            assert(w.tables[i] == b);
            let e = levels::found(b, files, key).unwrap();
            assert(levels::found(b, with_file, key) == levels::found(b, files, key));
            assert(not_newer(v, levels::found(v.tables[i - 1], files, key).unwrap(), key));
            assert forall|j: int|
                0 <= j < w.waiting.len() && (#[trigger] w.waiting[j]).contains_key(
                    key,
                ) implies e.seq_num <= w.waiting[j][key].seq_num by {
                assert(w.waiting[j] == v.waiting[j + 1]);
            }
        }
    }
    assert forall|key: u128| in_memory(w, key) || levels::settled(w.tables, with_file, key) by {
        lemma_flush_settles(v, w, t, files, with_file, key);
    }
}

/// What the table that a flush writes has under a key is what the memory table held.
pub proof fn lemma_flushed_found(
    v: EngineView,
    path: Seq<char>,
    t: TableView,
    empty_bloom: BloomView,
    bloom: BloomView,
    with_file: spec_fn(u64) -> FileView,
    key: u128,
)
    requires
        v.waiting.len() > 0,
        v.waiting[0].dom().finite(),
        v.waiting[0].len() > 0,
        empty_bloom.bytes.len() > 0,
        sstable::all_inserted(empty_bloom, memtable::sorted_range(v.waiting[0], None, None), bloom),
        sstable::lengths_fit(
            memtable::sorted_range(v.waiting[0], None, None),
            sstable::DEFAULT_BLOCK_SIZE as nat,
            bloom,
        ),
        sstable::opened_image(
            path,
            sstable::file_bytes(
                memtable::sorted_range(v.waiting[0], None, None),
                sstable::DEFAULT_BLOCK_SIZE as nat,
                bloom,
            ),
            v.next_sst_id,
            0,
        ) == Ok::<TableView, ErrorView>(t),
        with_file(v.next_sst_id) == sstable::file_of(
            sstable::file_bytes(
                memtable::sorted_range(v.waiting[0], None, None),
                sstable::DEFAULT_BLOCK_SIZE as nat,
                bloom,
            ),
        ),
    ensures
        levels::holds(t, with_file(t.id), memtable::sorted_range(v.waiting[0], None, None)),
        t.id == v.next_sst_id,
        t.level == 0,
        t.path == path,
        t.min_key <= t.max_key,
        levels::found(t, with_file, key) == (if v.waiting[0].contains_key(key) {
            Some(v.waiting[0][key])
        } else {
            None
        }),
{
    let m = v.waiting[0];
    let s = memtable::sorted_range(m, None, None);
    let target = sstable::DEFAULT_BLOCK_SIZE as nat;
    laws::law_memory_has_a_list(m);
    if s.len() == 0 {
        assert(m.dom() =~= Set::empty()) by {
            assert forall|k: u128| !m.dom().contains(k) by {
                if m.contains_key(k) {
                    assert(sstable::in_range(k, None, None));
                }
            }
        }
    }
    levels::lemma_built_holds(path, v.next_sst_id, 0, s, target, empty_bloom, bloom, t);
    assert(levels::holds(t, with_file(t.id), s));
    laws::lemma_listed_lookup(s, m, key);
    assert(sstable::table_find(t, with_file(t.id), key) == Ok::<Option<EntryView>, ErrorView>(
        sstable::lookup(s, key),
    ));
    assert(s[0].0 <= s[s.len() - 1].0) by {
        if s.len() > 1 {
            assert(s[0].0 < s[s.len() - 1].0);
        }
    }
}

/// A flush leaves under every key the newest entry first.
proof fn lemma_flush_settles(
    v: EngineView,
    w: EngineView,
    t: TableView,
    files: spec_fn(u64) -> FileView,
    with_file: spec_fn(u64) -> FileView,
    key: u128,
)
    requires
        newest_first(v, files),
        v.waiting.len() > 0,
        w.memory == v.memory,
        w.waiting == v.waiting.skip(1),
        w.tables == seq![t] + v.tables,
        forall|i: int|
            0 <= i < v.tables.len() ==> levels::found(#[trigger] v.tables[i], with_file, key)
                == levels::found(v.tables[i], files, key),
        levels::found(t, with_file, key) == (if v.waiting[0].contains_key(key) {
            Some(v.waiting[0][key])
        } else {
            None
        }),
    ensures
        in_memory(w, key) || levels::settled(w.tables, with_file, key),
{
    let r = levels::lemma_first_place(w.tables, with_file, key);
    assert(w.tables[0] == t);
    assert forall|i: int| 0 < i < w.tables.len() implies #[trigger] w.tables[i] == v.tables[i - 1] by {}
    if v.waiting[0].contains_key(key) {
        levels::lemma_first_is(w.tables, with_file, key, 0);
        assert forall|j: int|
            0 <= j < w.tables.len() && levels::found(
                #[trigger] w.tables[j],
                with_file,
                key,
            ) is Some implies levels::found(w.tables[j], with_file, key).unwrap().seq_num
            <= v.waiting[0][key].seq_num by {
            if j > 0 {
                assert(levels::found(v.tables[j - 1], files, key) is Some);
                assert(not_newer(v, levels::found(v.tables[j - 1], files, key).unwrap(), key));
            }
        }
    } else if in_memory(v, key) {
        if !v.memory.contains_key(key) {
            let i = choose|i: int|
                0 <= i < v.waiting.len() && (#[trigger] v.waiting[i]).contains_key(key);
            assert(w.waiting[i - 1] == v.waiting[i]);
        }
    } else {
        assert(levels::settled(v.tables, files, key));
        if let Some(e) = levels::first_in(w.tables, with_file, key) {
            assert(w.tables[r] == v.tables[r - 1]);
            assert forall|i: int| 0 <= i < r - 1 implies levels::found(
                #[trigger] v.tables[i],
                files,
                key,
            ) is None by {
                assert(w.tables[i + 1] == v.tables[i]);
            }
            levels::lemma_first_is(v.tables, files, key, r - 1);
            assert forall|j: int|
                0 <= j < w.tables.len() && levels::found(
                    #[trigger] w.tables[j],
                    with_file,
                    key,
                ) is Some implies levels::found(w.tables[j], with_file, key).unwrap().seq_num
                <= e.seq_num by {
                assert(levels::found(v.tables[j - 1], files, key) is Some);
            }
        }
    }
}

proof fn lemma_skipped(v: EngineView, w: EngineView, e: EntryView, key: u128, from: int)
    requires
        v.waiting.len() > 0,
        w.waiting == v.waiting.skip(1),
        w.memory == v.memory,
        w.next_seq == v.next_seq,
        1 <= from,
        older_than_memory(v, e, key, from) || older_than_memory(v, e, key, from - 1),
    ensures
        older_than_memory(w, e, key, from - 1),
{
    assert forall|i: int|
        from - 1 <= i < w.waiting.len() && (#[trigger] w.waiting[i]).contains_key(
            key,
        ) implies e.seq_num < w.waiting[i][key].seq_num by {
        assert(w.waiting[i] == v.waiting[i + 1]);
    }
}

/// Another file changes nothing for tables with other numbers.
proof fn lemma_tables_keep(
    tables: Seq<TableView>,
    files: spec_fn(u64) -> FileView,
    with_file: spec_fn(u64) -> FileView,
    id: u64,
)
    requires
        levels::in_order(tables, files),
        forall|i: int| 0 <= i < tables.len() ==> (#[trigger] tables[i]).id < id,
        forall|other: u64| other != id ==> #[trigger] with_file(other) == files(other),
    ensures
        levels::in_order(tables, with_file),
{
    assert forall|i: int, j: int| 0 <= i < j < tables.len() implies levels::pair_ok(#[trigger] tables[i], #[trigger] tables[j]) by {
        assert(levels::pair_ok(tables[i], tables[j]));
    }
}

/// The engine after a compaction.
pub open spec fn compacted_engine(v: EngineView, l0_trigger: nat, t: TableView) -> EngineView {
    EngineView {
        tables: engine::tables_after(
            v.tables,
            engine::paths_at(v.tables, compaction::plan_for(v.tables, l0_trigger).unwrap().inputs),
            t,
        ),
        next_sst_id: v.next_sst_id.wrapping_add(1),
        ..v
    }
}

/// What a lookup finds before and after a compaction.
pub proof fn lemma_compaction_entry(
    v: EngineView,
    files: spec_fn(u64) -> FileView,
    l0_trigger: nat,
    s: Seq<(u128, EntryView)>,
    empty_bloom: BloomView,
    bloom: BloomView,
    with_file: spec_fn(u64) -> FileView,
    t: TableView,
    key: u128,
)
    requires
        newest_first(v, files),
        compaction::plan_for(v.tables, l0_trigger) matches Some(plan) && levels::merged_into(
            v.tables,
            files,
            plan,
            s,
            empty_bloom,
            bloom,
            with_file,
            t,
        ),
    ensures
        in_memory(v, key) || levels::settled(
            compacted_engine(v, l0_trigger, t).tables,
            with_file,
            key,
        ),
        engine::newest_entry(v, files, key) matches Ok(was) && engine::newest_entry(
            compacted_engine(v, l0_trigger, t),
            with_file,
            key,
        ) matches Ok(is_now) && levels::same_or_gone(was, is_now),
{
    let r = lemma_in_waiting(v.waiting, key);
    if !in_memory(v, key) {
        assert(levels::settled(v.tables, files, key));
        levels::law_compaction_keeps_reads(
            v.tables,
            files,
            l0_trigger,
            s,
            empty_bloom,
            bloom,
            with_file,
            t,
            key,
        );
        if engine::in_waiting(v.waiting, key) is Some {
            assert(v.waiting[r].contains_key(key));
        }
    } else if !v.memory.contains_key(key) {
        let i = choose|i: int|
            0 <= i < v.waiting.len() && (#[trigger] v.waiting[i]).contains_key(key);
        assert(engine::in_waiting(v.waiting, key) is Some);
    }
}

/// A compaction keeps the order of the engine.
pub proof fn law_compaction_keeps_the_engine(
    v: EngineView,
    files: spec_fn(u64) -> FileView,
    l0_trigger: nat,
    s: Seq<(u128, EntryView)>,
    empty_bloom: BloomView,
    bloom: BloomView,
    with_file: spec_fn(u64) -> FileView,
    t: TableView,
)
    requires
        newest_first(v, files),
        v.next_sst_id < u64::MAX,
        t.id == v.next_sst_id,
        compaction::plan_for(v.tables, l0_trigger) matches Some(plan) && levels::merged_into(
            v.tables,
            files,
            plan,
            s,
            empty_bloom,
            bloom,
            with_file,
            t,
        ),
    ensures
        newest_first(compacted_engine(v, l0_trigger, t), with_file),
{
    let plan = compaction::plan_for(v.tables, l0_trigger).unwrap();
    let after = compacted_engine(v, l0_trigger, t);
    levels::law_compaction_keeps_the_order(
        v.tables,
        files,
        l0_trigger,
        s,
        empty_bloom,
        bloom,
        with_file,
        t,
    );
    assert forall|i: int, k: u128|
        0 <= i < after.tables.len() && #[trigger] levels::found(
            after.tables[i],
            with_file,
            k,
        ) is Some implies not_newer(
        after,
        levels::found(after.tables[i], with_file, k).unwrap(),
        k,
    ) by {
        let x = levels::lemma_entry_was_there(
            v.tables,
            files,
            l0_trigger,
            s,
            empty_bloom,
            bloom,
            with_file,
            t,
            i,
            k,
        );
        assert(not_newer(v, levels::found(v.tables[x], files, k).unwrap(), k));
    }
    assert forall|i: int| 0 <= i < after.tables.len() implies (#[trigger] after.tables[i]).id
        < after.next_sst_id by {
        levels::lemma_table_was_there(v.tables, files, l0_trigger, t, i);
    }
    assert forall|i: int, k: u128|
        0 <= i < after.waiting.len() && #[trigger] after.waiting[i].contains_key(
            k,
        ) implies older_than_memory(after, after.waiting[i][k], k, i + 1) by {
        assert(older_than_memory(v, v.waiting[i][k], k, i + 1));
    }
    assert forall|k: u128| in_memory(after, k) || levels::settled(after.tables, with_file, k) by {
        lemma_compaction_entry(v, files, l0_trigger, s, empty_bloom, bloom, with_file, t, k);
        if in_memory(v, k) && !v.memory.contains_key(k) {
            let i = choose|i: int|
                0 <= i < v.waiting.len() && (#[trigger] v.waiting[i]).contains_key(k);
            assert(after.waiting[i].contains_key(k));
        }
    }
}

/// A compaction changes no read, no scan, and not whether a key is there.
pub proof fn law_compaction_is_not_seen(
    v: EngineView,
    files: spec_fn(u64) -> FileView,
    l0_trigger: nat,
    s: Seq<(u128, EntryView)>,
    empty_bloom: BloomView,
    bloom: BloomView,
    with_file: spec_fn(u64) -> FileView,
    t: TableView,
    key: u128,
    start: Option<PlayerId>,
    end: Option<PlayerId>,
    limit: nat,
    now_secs: u64,
)
    requires
        newest_first(v, files),
        v.next_sst_id < u64::MAX,
        t.id == v.next_sst_id,
        compaction::plan_for(v.tables, l0_trigger) matches Some(plan) && levels::merged_into(
            v.tables,
            files,
            plan,
            s,
            empty_bloom,
            bloom,
            with_file,
            t,
        ),
    ensures
        ({
            let after = compacted_engine(v, l0_trigger, t);
            &&& engine::value_of(after, with_file, key, now_secs) == engine::value_of(
                v,
                files,
                key,
                now_secs,
            )
            &&& engine::holds_value(after, with_file, key, now_secs) == engine::holds_value(
                v,
                files,
                key,
                now_secs,
            )
            &&& engine::scan_of(after, with_file, start, end, limit, now_secs) == engine::scan_of(
                v,
                files,
                start,
                end,
                limit,
                now_secs,
            )
        }),
{
    let after = compacted_engine(v, l0_trigger, t);
    law_compaction_keeps_the_engine(
        v,
        files,
        l0_trigger,
        s,
        empty_bloom,
        bloom,
        with_file,
        t,
    );
    lemma_compaction_entry(v, files, l0_trigger, s, empty_bloom, bloom, with_file, t, key);
    assert forall|k: u128| #[trigger]
        engine::newest_entry(v, files, k) matches Ok(was) && engine::newest_entry(
            after,
            with_file,
            k,
        ) matches Ok(is_now) && levels::same_or_gone(was, is_now) by {
        lemma_compaction_entry(v, files, l0_trigger, s, empty_bloom, bloom, with_file, t, k);
    }
    lemma_same_scan(v, files, after, with_file, start, end);
}

/// A compaction leaves the tables that it does not take, and their files, as they are.
pub proof fn law_compaction_leaves_other_tables(
    v: EngineView,
    files: spec_fn(u64) -> FileView,
    l0_trigger: nat,
    s: Seq<(u128, EntryView)>,
    empty_bloom: BloomView,
    bloom: BloomView,
    with_file: spec_fn(u64) -> FileView,
    t: TableView,
    x: int,
)
    requires
        newest_first(v, files),
        compaction::plan_for(v.tables, l0_trigger) matches Some(plan) && levels::merged_into(
            v.tables,
            files,
            plan,
            s,
            empty_bloom,
            bloom,
            with_file,
            t,
        ) && !plan.inputs.contains(x),
        0 <= x < v.tables.len(),
    ensures
        compacted_engine(v, l0_trigger, t).tables.contains(v.tables[x]),
        with_file(v.tables[x].id) == files(v.tables[x].id),
{
    let plan = compaction::plan_for(v.tables, l0_trigger).unwrap();
    levels::lemma_levelled(v.tables, files);
    levels::lemma_plan_divides(v.tables, l0_trigger);
    levels::lemma_table_stays(v.tables, files, plan.inputs, t, x);
}

/// Engines in order in which lookups find the same, tombstones aside, give the same to a scan.
proof fn lemma_same_scan(
    v: EngineView,
    files: spec_fn(u64) -> FileView,
    w: EngineView,
    others: spec_fn(u64) -> FileView,
    start: Option<PlayerId>,
    end: Option<PlayerId>,
)
    requires
        newest_first(v, files),
        newest_first(w, others),
        forall|k: u128| #[trigger]
            engine::newest_entry(v, files, k) matches Ok(was) && engine::newest_entry(
                w,
                others,
                k,
            ) matches Ok(is_now) && levels::same_or_gone(was, is_now),
    ensures
        iterator::scan_sources(v.memory, v.waiting, v.tables, files, start, end) matches Ok(one)
            && iterator::scan_sources(
            w.memory,
            w.waiting,
            w.tables,
            others,
            start,
            end,
        ) matches Ok(two) && iterator::live(iterator::merged(one)) == iterator::live(
            iterator::merged(two),
        ),
{
    lemma_scan_sources(v, files, start, end, 0);
    lemma_scan_sources(w, others, start, end, 0);
    let one = iterator::scan_sources(v.memory, v.waiting, v.tables, files, start, end)->Ok_0;
    let two = iterator::scan_sources(w.memory, w.waiting, w.tables, others, start, end)->Ok_0;
    let a = iterator::live(iterator::merged(one));
    let b = iterator::live(iterator::merged(two));
    lemma_live(iterator::merged(one), 0, Seq::empty());
    lemma_live(iterator::merged(two), 0, Seq::empty());
    assert forall|item: (u128, Seq<u8>)| a.contains(item) <==> #[trigger] b.contains(item) by {
        let (key, value) = item;
        lemma_scan_sources(v, files, start, end, key);
        lemma_scan_sources(w, others, start, end, key);
        lemma_live(iterator::merged(one), key, value);
        lemma_live(iterator::merged(two), key, value);
        assert(levels::same_or_gone(
            engine::newest_entry(v, files, key)->Ok_0,
            engine::newest_entry(w, others, key)->Ok_0,
        ));
    }
    lemma_same_pairs(a, b);
}

/// Lists of pairs by ascending keys that hold the same pairs are the same.
proof fn lemma_same_pairs(a: Seq<(u128, Seq<u8>)>, b: Seq<(u128, Seq<u8>)>)
    requires
        pairs_ascend(a),
        pairs_ascend(b),
        forall|item: (u128, Seq<u8>)| a.contains(item) <==> #[trigger] b.contains(item),
    ensures
        a == b,
    decreases a.len(),
{
    if a.len() == 0 {
        if b.len() > 0 {
            assert(b.contains(b[0]));
        }
        assert(a =~= b);
    } else {
        let x = a.last();
        assert(a.contains(x));
        assert(b.contains(x));
        let y = b.last();
        assert(b.contains(y));
        assert(a.contains(y));
        let i = choose|i: int| 0 <= i < b.len() && b[i] == x;
        let j = choose|j: int| 0 <= j < a.len() && a[j] == y;
        assert(x == y) by {
            assert(i < b.len() - 1 ==> b[i].0 < b[b.len() - 1].0);
            assert(j < a.len() - 1 ==> a[j].0 < a[a.len() - 1].0);
        }
        let a1 = a.drop_last();
        let b1 = b.drop_last();
        assert(a =~= a1.push(x));
        assert(b =~= b1.push(x));
        assert forall|item: (u128, Seq<u8>)| a1.contains(item) <==> #[trigger] b1.contains(item) by {
            lemma_pairs_push(a1, x, item);
            lemma_pairs_push(b1, x, item);
            assert(a.contains(item) <==> b.contains(item));
            if a1.contains(x) {
                let k = choose|k: int| 0 <= k < a1.len() && a1[k] == x;
                assert(a[k].0 < a[a.len() - 1].0);
            }
            if b1.contains(x) {
                let k = choose|k: int| 0 <= k < b1.len() && b1[k] == x;
                assert(b[k].0 < b[b.len() - 1].0);
            }
        }
        lemma_same_pairs(a1, b1);
    }
}

// ---------------------------------------------------------------------------------------------
// Opening
// ---------------------------------------------------------------------------------------------
pub proof fn lemma_loaded_seq(s: Seq<(u128, EntryView)>, key: u128)
    ensures
        engine::loaded(s).dom().finite(),
        engine::loaded(s).contains_key(key) ==> engine::loaded(s)[key].seq_num <= wal::max_seq(s),
    decreases s.len(),
{
    if s.len() > 0 {
        lemma_loaded_seq(s.drop_last(), key);
    }
}

/// An engine that was opened without tables is in order.
pub proof fn law_fresh_engine_is_in_order(
    v: EngineView,
    entries: Seq<(u128, EntryView)>,
    files: spec_fn(u64) -> FileView,
)
    requires
        v.tables.len() == 0,
        v.waiting.len() == 0,
        v.memory == engine::loaded(entries),
        v.next_seq == wal::max_seq(entries) + 1,
    ensures
        newest_first(v, files),
{
    lemma_loaded_seq(entries, 0);
    assert forall|key: u128| #[trigger] v.memory.contains_key(key) implies v.memory[key].seq_num
        < v.next_seq by {
        lemma_loaded_seq(entries, key);
    }
}

// ---------------------------------------------------------------------------------------------
// Scans
// ---------------------------------------------------------------------------------------------
proof fn lemma_in_range_entries(
    s: Seq<(u128, EntryView)>,
    start: Option<PlayerId>,
    end: Option<PlayerId>,
    key: u128,
)
    requires
        sstable::ascending(s),
    ensures
        sstable::ascending(sstable::entries_in_range(s, start, end)),
        forall|i: int|
            0 <= i < sstable::entries_in_range(s, start, end).len() ==> s.contains(
                #[trigger] sstable::entries_in_range(s, start, end)[i],
            ) && sstable::in_range(sstable::entries_in_range(s, start, end)[i].0, start, end),
        sstable::lookup(sstable::entries_in_range(s, start, end), key) == (if sstable::in_range(
            key,
            start,
            end,
        ) {
            sstable::lookup(s, key)
        } else {
            None
        }),
    decreases s.len(),
{
    reveal(Seq::filter);
    let out = sstable::entries_in_range(s, start, end);
    if s.len() > 0 {
        let head = s.drop_last();
        let last = s.last();
        assert forall|i: int, j: int| 0 <= i < j < head.len() implies (#[trigger] head[i]).0 < (
        #[trigger] head[j]).0 by {
            assert(head[i] == s[i] && head[j] == s[j]);
        }
        lemma_in_range_entries(head, start, end, key);
        let fewer = sstable::entries_in_range(head, start, end);
        assert(out == if sstable::in_range(last.0, start, end) {
            fewer.push(last)
        } else {
            fewer
        });
        assert forall|i: int| 0 <= i < out.len() implies s.contains(#[trigger] out[i])
            && sstable::in_range(out[i].0, start, end) by {
            if i < fewer.len() {
                assert(out[i] == fewer[i]);
                let j = choose|j: int| 0 <= j < head.len() && head[j] == fewer[i];
                assert(s[j] == out[i]);
            } else {
                assert(s[s.len() - 1] == out[i]);
            }
        }
        if sstable::in_range(last.0, start, end) {
            assert(out.drop_last() =~= fewer);
            assert forall|i: int, j: int| 0 <= i < j < out.len() implies (#[trigger] out[i]).0 < (
            #[trigger] out[j]).0 by {
                assert(out[i] == fewer[i]);
                let a = choose|a: int| 0 <= a < head.len() && head[a] == fewer[i];
                assert(s[a].0 < s[s.len() - 1].0);
                if j < fewer.len() {
                    assert(out[j] == fewer[j]);
                }
            }
        }
        if last.0 == key {
            assert forall|i: int| 0 <= i < head.len() implies (#[trigger] head[i]).0 != key by {
                assert(s[i].0 < s[s.len() - 1].0);
            }
            sstable::lemma_lookup_absent(head, key);
        }
    }
}

/// What a memory table gives to a scan.
proof fn lemma_memory_source(
    m: Map<u128, EntryView>,
    start: Option<PlayerId>,
    end: Option<PlayerId>,
    key: u128,
)
    requires
        m.dom().finite(),
    ensures
        sstable::ascending(memtable::sorted_range(m, start, end)),
        sstable::lookup(memtable::sorted_range(m, start, end), key) == (if sstable::in_range(
            key,
            start,
            end,
        ) && m.contains_key(key) {
            Some(m[key])
        } else {
            None
        }),
{
    laws::law_memory_has_a_list(m);
    let all = memtable::sorted_range(m, None, None);
    let part = sstable::entries_in_range(all, start, end);
    lemma_in_range_entries(all, start, end, key);
    assert forall|i: int| 0 <= i < part.len() implies sstable::in_range(
        (#[trigger] part[i]).0,
        start,
        end,
    ) && m.contains_key(part[i].0) && m[part[i].0] == part[i].1 by {
        let j = choose|j: int| 0 <= j < all.len() && all[j] == part[i];
        assert(m.contains_key(all[j].0));
    }
    assert forall|k: u128|
        sstable::in_range(k, start, end) && #[trigger] m.contains_key(k) implies exists|i: int|
        0 <= i < part.len() && (#[trigger] part[i]).0 == k by {
        laws::lemma_listed_lookup(all, m, k);
        lemma_in_range_entries(all, start, end, k);
        sstable::lemma_lookup_some(part, k);
        let i = choose|i: int|
            0 <= i < part.len() && (#[trigger] part[i]) == (k, sstable::lookup(part, k).unwrap());
        assert(part[i].0 == k);
    }
    assert(memtable::lists_range(part, m, start, end));
    let s = memtable::sorted_range(m, start, end);
    assert(memtable::lists_range(s, m, start, end));
    memtable::lemma_lists_range_unique(s, part, m, start, end);
    laws::lemma_listed_lookup(all, m, key);
}

/// What the tables give to a scan.
proof fn lemma_table_source(
    tables: Seq<TableView>,
    files: spec_fn(u64) -> FileView,
    start: Option<PlayerId>,
    end: Option<PlayerId>,
    key: u128,
    n: int,
)
    requires
        0 <= n <= tables.len(),
        levels::in_order(tables, files),
    ensures
        iterator::table_sources(tables, files, start, end, n) matches Ok(src) && src.len() == n
            && forall|k: int|
            0 <= k < n ==> sstable::ascending(#[trigger] src[k]) && sstable::lookup(src[k], key)
                == (if sstable::in_range(key, start, end) {
                levels::found(tables[k], files, key)
            } else {
                None
            }),
    decreases n,
{
    if n > 0 {
        lemma_table_source(tables, files, start, end, key, n - 1);
        let t = tables[n - 1];
        let all = choose|all: Seq<(u128, EntryView)>| #[trigger]
            levels::holds(t, files(t.id), all);
        lemma_in_range_entries(all, start, end, key);
        assert(sstable::table_find(t, files(t.id), key) == Ok::<Option<EntryView>, ErrorView>(
            sstable::lookup(all, key),
        ));
        let head = iterator::table_sources(tables, files, start, end, n - 1)->Ok_0;
        let src = head.push(sstable::entries_in_range(all, start, end));
        assert(iterator::table_sources(tables, files, start, end, n) == Ok::<
            Seq<Seq<(u128, EntryView)>>,
            ErrorView,
        >(src));
        assert forall|k: int| 0 <= k < n implies sstable::ascending(#[trigger] src[k])
            && sstable::lookup(src[k], key) == (if sstable::in_range(key, start, end) {
            levels::found(tables[k], files, key)
        } else {
            None
        }) by {
            if k < n - 1 {
                assert(src[k] == head[k]);
            }
        }
    }
}

proof fn lemma_newest_from(s: Seq<Seq<(u128, EntryView)>>, key: u128, n: int)
    requires
        0 <= n <= s.len(),
    ensures
        match iterator::newest(s, key, n) {
            Some(e) => exists|k: int| 0 <= k < n && sstable::lookup(#[trigger] s[k], key) == Some(e),
            None => forall|k: int| 0 <= k < n ==> sstable::lookup(#[trigger] s[k], key) is None,
        },
    decreases n,
{
    if n > 0 {
        lemma_newest_from(s, key, n - 1);
        if sstable::lookup(s[n - 1], key) is Some {
            assert(sstable::lookup(s[n - 1], key) == Some(sstable::lookup(s[n - 1], key).unwrap()));
        }
    }
}

/// The entry that is newer than those before it and not older than those after it is the newest.
proof fn lemma_newest_is(
    s: Seq<Seq<(u128, EntryView)>>,
    key: u128,
    n: int,
    k: int,
    e: EntryView,
)
    requires
        0 <= k < n <= s.len(),
        sstable::lookup(s[k], key) == Some(e),
        forall|j: int|
            0 <= j < n && j != k && sstable::lookup(#[trigger] s[j], key) is Some
                ==> sstable::lookup(s[j], key).unwrap().seq_num < e.seq_num || j > k
                && sstable::lookup(s[j], key).unwrap().seq_num == e.seq_num,
    ensures
        iterator::newest(s, key, n) == Some(e),
    decreases n,
{
    if k == n - 1 {
        lemma_newest_from(s, key, n - 1);
    } else {
        lemma_newest_is(s, key, n - 1, k, e);
    }
}

/// The sources of a scan of an engine in order: merging them gives, under every key within the
/// bounds, the entry that a lookup finds.
proof fn lemma_scan_sources(
    v: EngineView,
    files: spec_fn(u64) -> FileView,
    start: Option<PlayerId>,
    end: Option<PlayerId>,
    key: u128,
)
    requires
        newest_first(v, files),
    ensures
        iterator::scan_sources(v.memory, v.waiting, v.tables, files, start, end) matches Ok(src)
            && sstable::ascending(iterator::merged(src)) && sstable::lookup(
            iterator::merged(src),
            key,
        ) == (if sstable::in_range(key, start, end) {
            match engine::newest_entry(v, files, key) {
                Ok(e) => e,
                Err(_) => None,
            }
        } else {
            None
        }),
        engine::newest_entry(v, files, key) is Ok,
{
    let n = v.tables.len() as int;
    let w = v.waiting.len() as int;
    lemma_table_source(v.tables, files, start, end, key, n);
    lemma_memory_source(v.memory, start, end, key);
    levels::lemma_lookup_is_first(v.tables, files, key);
    let tail = iterator::table_sources(v.tables, files, start, end, n)->Ok_0;
    let mid = iterator::mem_sources(v.waiting, start, end);
    let front = seq![memtable::sorted_range(v.memory, start, end)];
    let src = front + mid + tail;
    assert forall|i: int| 0 <= i < w implies sstable::ascending(#[trigger] mid[i])
        && sstable::lookup(mid[i], key) == (if sstable::in_range(key, start, end)
        && v.waiting[i].contains_key(key) {
        Some(v.waiting[i][key])
    } else {
        None
    }) by {
        assert(v.waiting[i].dom().finite());
        lemma_memory_source(v.waiting[i], start, end, key);
    }
    assert forall|i: int| 0 <= i < src.len() implies sstable::ascending(#[trigger] src[i])
        && sstable::lookup(src[i], key) == (if sstable::in_range(key, start, end) {
        held_at(v, files, key, i)
    } else {
        None
    }) by {
        if i == 0 {
            assert(src[i] == front[0]);
        } else if i < 1 + w {
            assert(src[i] == mid[i - 1]);
        } else {
            assert(src[i] == tail[i - 1 - w]);
        }
    }
    iterator::law_merge_keeps_the_newest(src, key);
    let total = src.len() as int;
    if sstable::in_range(key, start, end) {
        let k = lemma_newest_held(v, files, key);
        match engine::newest_entry(v, files, key)->Ok_0 {
            Some(e) => {
                assert(sstable::lookup(src[k], key) == Some(e));
                assert forall|j: int|
                    0 <= j < total && j != k && sstable::lookup(
                        #[trigger] src[j],
                        key,
                    ) is Some implies sstable::lookup(src[j], key).unwrap().seq_num < e.seq_num || j
                    > k && sstable::lookup(src[j], key).unwrap().seq_num == e.seq_num by {
                    assert(held_at(v, files, key, j) is Some);
                }
                lemma_newest_is(src, key, total, k, e);
            },
            None => {
                lemma_newest_from(src, key, total);
                if iterator::newest(src, key, total) is Some {
                    let j = choose|j: int|
                        0 <= j < total && sstable::lookup(#[trigger] src[j], key) == Some(
                            iterator::newest(src, key, total).unwrap(),
                        );
                    assert(held_at(v, files, key, j) is Some);
                }
            },
        }
    } else {
        lemma_newest_from(src, key, total);
        if iterator::newest(src, key, total) is Some {
            let j = choose|j: int|
                0 <= j < total && sstable::lookup(#[trigger] src[j], key) == Some(
                    iterator::newest(src, key, total).unwrap(),
                );
        }
    }
}

/// What the `i`-th place of an engine holds under a key: the active memory table, those that wait,
/// the tables.
pub open spec fn held_at(v: EngineView, files: spec_fn(u64) -> FileView, key: u128, i: int) -> Option<
    EntryView,
> {
    if i == 0 {
        if v.memory.contains_key(key) {
            Some(v.memory[key])
        } else {
            None
        }
    } else if i <= v.waiting.len() {
        if v.waiting[i - 1].contains_key(key) {
            Some(v.waiting[i - 1][key])
        } else {
            None
        }
    } else {
        levels::found(v.tables[i - 1 - v.waiting.len()], files, key)
    }
}

proof fn lemma_in_waiting(waiting: Seq<Map<u128, EntryView>>, key: u128) -> (r: int)
    ensures
        match engine::in_waiting(waiting, key) {
            Some(e) => 0 <= r < waiting.len() && waiting[r].contains_key(key) && waiting[r][key] == e
                && forall|i: int|
                r < i < waiting.len() ==> !(#[trigger] waiting[i]).contains_key(key),
            None => forall|i: int|
                0 <= i < waiting.len() ==> !(#[trigger] waiting[i]).contains_key(key),
        },
    decreases waiting.len(),
{
    if waiting.len() == 0 {
        0
    } else if waiting.last().contains_key(key) {
        waiting.len() - 1
    } else {
        let head = waiting.drop_last();
        let r = lemma_in_waiting(head, key);
        assert forall|i: int|
            (engine::in_waiting(head, key) is None || r < i) && 0 <= i
                < waiting.len() implies !(#[trigger] waiting[i]).contains_key(key) by {
            if i < head.len() {
                assert(head[i] == waiting[i]);
            }
        }
        r
    }
}

/// The entry that a lookup finds is newer than those under its key in places before it, and not older
/// than those in places after it.
proof fn lemma_newest_held(v: EngineView, files: spec_fn(u64) -> FileView, key: u128) -> (k: int)
    requires
        newest_first(v, files),
        engine::newest_entry(v, files, key) is Ok,
    ensures
        match engine::newest_entry(v, files, key)->Ok_0 {
            Some(e) => 0 <= k < 1 + v.waiting.len() + v.tables.len() && held_at(v, files, key, k)
                == Some(e) && forall|j: int|
                0 <= j < 1 + v.waiting.len() + v.tables.len() && j != k && #[trigger] held_at(
                    v,
                    files,
                    key,
                    j,
                ) is Some ==> held_at(v, files, key, j).unwrap().seq_num < e.seq_num || j > k
                && held_at(v, files, key, j).unwrap().seq_num == e.seq_num,
            None => forall|j: int|
                0 <= j < 1 + v.waiting.len() + v.tables.len() ==> #[trigger] held_at(
                    v,
                    files,
                    key,
                    j,
                ) is None,
        },
{
    let w = v.waiting.len() as int;
    let n = v.tables.len() as int;
    let total = 1 + w + n;
    levels::lemma_lookup_is_first(v.tables, files, key);
    let r = lemma_in_waiting(v.waiting, key);
    let q = levels::lemma_first_place(v.tables, files, key);
    let k = if v.memory.contains_key(key) {
        0
    } else if engine::in_waiting(v.waiting, key) is Some {
        r + 1
    } else {
        q + 1 + w
    };
    assert forall|j: int| 0 <= j < total && #[trigger] held_at(v, files, key, j) is Some implies (
    match engine::newest_entry(v, files, key)->Ok_0 {
        Some(e) => j == k || held_at(v, files, key, j).unwrap().seq_num < e.seq_num || j > k
            && held_at(v, files, key, j).unwrap().seq_num == e.seq_num,
        None => false,
    }) by {
        if 0 < j <= w {
            assert(v.waiting[j - 1].contains_key(key));
            assert(older_than_memory(v, v.waiting[j - 1][key], key, j));
        } else if j > w {
            let x = j - 1 - w;
            assert(not_newer(v, levels::found(v.tables[x], files, key).unwrap(), key));
            if !v.memory.contains_key(key) && engine::in_waiting(v.waiting, key) is None {
                assert(!in_memory(v, key));
                assert(levels::settled(v.tables, files, key));
                assert(levels::found(v.tables[x], files, key) is Some);
                if x < q {
                    assert(levels::found(v.tables[x], files, key) is None);
                }
            }
        }
        if engine::in_waiting(v.waiting, key) is Some {
            assert(v.waiting[r].contains_key(key));
        }
    }
    k
}

proof fn lemma_live(s: Seq<(u128, EntryView)>, key: u128, value: Seq<u8>)
    requires
        sstable::ascending(s),
    ensures
        pairs_ascend(iterator::live(s)),
        forall|i: int|
            0 <= i < iterator::live(s).len() ==> exists|j: int|
                0 <= j < s.len() && (#[trigger] s[j]).0 == (#[trigger] iterator::live(s)[i]).0,
        iterator::live(s).contains((key, value)) <==> (sstable::lookup(s, key) matches Some(e)
            && e.value == Some(value)),
    decreases s.len(),
{
    let out = iterator::live(s);
    if s.len() > 0 {
        let head = s.drop_last();
        let last = s.last();
        assert forall|i: int, j: int| 0 <= i < j < head.len() implies (#[trigger] head[i]).0 < (
        #[trigger] head[j]).0 by {
            assert(head[i] == s[i] && head[j] == s[j]);
        }
        lemma_live(head, key, value);
        let fewer = iterator::live(head);
        assert forall|i: int| 0 <= i < out.len() implies exists|j: int|
            0 <= j < s.len() && (#[trigger] s[j]).0 == (#[trigger] out[i]).0 by {
            if i < fewer.len() {
                assert(out[i] == fewer[i]);
                let j = choose|j: int|
                    0 <= j < head.len() && (#[trigger] head[j]).0 == fewer[i].0;
                assert(s[j].0 == out[i].0);
            } else {
                assert(s[s.len() - 1].0 == out[i].0);
            }
        }
        assert forall|i: int| 0 <= i < fewer.len() implies (#[trigger] fewer[i]).0 < last.0 by {
            let j = choose|j: int| 0 <= j < head.len() && (#[trigger] head[j]).0 == fewer[i].0;
            assert(s[j].0 < s[s.len() - 1].0);
        }
        if let Some(val) = last.1.value {
            assert(out == fewer.push((last.0, val)));
            lemma_pairs_push(fewer, (last.0, val), (key, value));
        }
        if last.0 == key {
            assert forall|i: int| 0 <= i < head.len() implies (#[trigger] head[i]).0 != key by {
                assert(s[i].0 < s[s.len() - 1].0);
            }
            sstable::lemma_lookup_absent(head, key);
        }
    }
}

/// Keys with values, each key above those before it.
pub open spec fn pairs_ascend(s: Seq<(u128, Seq<u8>)>) -> bool {
    forall|i: int, j: int| 0 <= i < j < s.len() ==> (#[trigger] s[i]).0 < (#[trigger] s[j]).0
}

proof fn lemma_pairs_push(
    s: Seq<(u128, Seq<u8>)>,
    x: (u128, Seq<u8>),
    item: (u128, Seq<u8>),
)
    ensures
        s.push(x).contains(item) <==> s.contains(item) || item == x,
{
    if s.contains(item) {
        let j = choose|j: int| 0 <= j < s.len() && s[j] == item;
        assert(s.push(x)[j] == item);
    }
    if item == x {
        assert(s.push(x)[s.len() as int] == item);
    }
    if s.push(x).contains(item) {
        let j = choose|j: int| 0 <= j < s.push(x).len() && s.push(x)[j] == item;
        if j < s.len() {
            assert(s[j] == item);
        }
    }
}

proof fn lemma_unexpired(
    s: Seq<(u128, Seq<u8>)>,
    ttls: Map<u128, u64>,
    now_secs: u64,
    item: (u128, Seq<u8>),
)
    requires
        pairs_ascend(s),
    ensures
        pairs_ascend(engine::unexpired(s, ttls, now_secs)),
        forall|i: int|
            0 <= i < engine::unexpired(s, ttls, now_secs).len() ==> s.contains(
                #[trigger] engine::unexpired(s, ttls, now_secs)[i],
            ),
        engine::unexpired(s, ttls, now_secs).contains(item) <==> s.contains(item)
            && !engine::expired(ttls, item.0, now_secs),
    decreases s.len(),
{
    let out = engine::unexpired(s, ttls, now_secs);
    if s.len() > 0 {
        let head = s.drop_last();
        let last = s.last();
        assert(s =~= head.push(last));
        assert forall|i: int, j: int| 0 <= i < j < head.len() implies (#[trigger] head[i]).0 < (
        #[trigger] head[j]).0 by {
            assert(head[i] == s[i] && head[j] == s[j]);
        }
        lemma_unexpired(head, ttls, now_secs, item);
        lemma_pairs_push(head, last, item);
        let fewer = engine::unexpired(head, ttls, now_secs);
        assert forall|i: int| 0 <= i < out.len() implies s.contains(#[trigger] out[i]) by {
            if i < fewer.len() {
                assert(out[i] == fewer[i]);
                let j = choose|j: int| 0 <= j < head.len() && head[j] == fewer[i];
                assert(s[j] == out[i]);
            } else {
                assert(s[s.len() - 1] == out[i]);
            }
        }
        if !engine::expired(ttls, last.0, now_secs) {
            assert(out == fewer.push(last));
            lemma_pairs_push(fewer, last, item);
            assert forall|i: int, j: int| 0 <= i < j < out.len() implies (#[trigger] out[i]).0 < (
            #[trigger] out[j]).0 by {
                assert(out[i] == fewer[i]);
                let a = choose|a: int| 0 <= a < head.len() && head[a] == fewer[i];
                assert(s[a].0 < s[s.len() - 1].0);
                if j < fewer.len() {
                    assert(out[j] == fewer[j]);
                }
            }
        }
    }
}

/// A scan gives, in the order of the keys and no more than the limit, values within the bounds that
/// reads of their keys give; none is missing before the last that it gives, and none at all where
/// there are no more than the limit.
pub proof fn law_scan_gives_what_reads_give(
    v: EngineView,
    files: spec_fn(u64) -> FileView,
    start: Option<PlayerId>,
    end: Option<PlayerId>,
    limit: nat,
    now_secs: u64,
    key: u128,
    value: Seq<u8>,
)
    requires
        newest_first(v, files),
    ensures
        engine::scan_of(v, files, start, end, limit, now_secs) matches Ok(s) && {
            let is_read = sstable::in_range(key, start, end) && engine::value_of(
                v,
                files,
                key,
                now_secs,
            ) == Ok::<Option<Seq<u8>>, ErrorView>(Some(value));
            &&& pairs_ascend(s)
            &&& s.len() <= limit
            &&& s.contains((key, value)) ==> is_read
            &&& is_read && s.len() > 0 && key <= s.last().0 ==> s.contains((key, value))
            &&& is_read && s.len() < limit && v.ttls == Map::<u128, u64>::empty() ==> s.contains(
                (key, value),
            )
            &&& is_read && (iterator::scan_sources(
                v.memory,
                v.waiting,
                v.tables,
                files,
                start,
                end,
            ) matches Ok(src) && iterator::live(iterator::merged(src)).len() <= limit)
                ==> s.contains((key, value))
        },
{
    lemma_scan_sources(v, files, start, end, key);
    let src = iterator::scan_sources(v.memory, v.waiting, v.tables, files, start, end)->Ok_0;
    let all = iterator::live(iterator::merged(src));
    let cut = iterator::first(all, limit);
    lemma_live(iterator::merged(src), key, value);
    if limit == 0 {
        assert(cut =~= Seq::empty());
    }
    assert(iterator::scanned(v.memory, v.waiting, v.tables, files, start, end, limit) == Ok::<
        Seq<(u128, Seq<u8>)>,
        ErrorView,
    >(cut));
    assert forall|i: int, j: int| 0 <= i < j < cut.len() implies (#[trigger] cut[i]).0 < (
    #[trigger] cut[j]).0 by {
        assert(cut[i] == all[i] && cut[j] == all[j]);
    }
    lemma_unexpired(cut, v.ttls, now_secs, (key, value));
    let s = engine::unexpired(cut, v.ttls, now_secs);
    if cut.contains((key, value)) {
        let i = choose|i: int| 0 <= i < cut.len() && cut[i] == (key, value);
        assert(all[i] == (key, value));
    }
    if all.contains((key, value)) && s.len() > 0 && key <= s.last().0 {
        let i = choose|i: int| 0 <= i < all.len() && all[i] == (key, value);
        assert(cut.contains(s[s.len() - 1]));
        let j = choose|j: int| 0 <= j < cut.len() && cut[j] == s[s.len() - 1];
        assert(i <= j) by {
            if j < i {
                assert(all[j].0 < all[i].0);
            }
        }
        assert(cut[i] == (key, value));
    }
    lemma_unexpired_len(cut, v.ttls, now_secs);
}

proof fn lemma_unexpired_len(s: Seq<(u128, Seq<u8>)>, ttls: Map<u128, u64>, now_secs: u64)
    ensures
        engine::unexpired(s, ttls, now_secs).len() <= s.len(),
        ttls == Map::<u128, u64>::empty() ==> engine::unexpired(s, ttls, now_secs).len()
            == s.len(),
    decreases s.len(),
{
    if s.len() > 0 {
        lemma_unexpired_len(s.drop_last(), ttls, now_secs);
    }
}

/// The keys under which an engine holds values.
pub open spec fn active(v: EngineView, files: spec_fn(u64) -> FileView) -> Set<u128> {
    Set::new(
        |key: u128|
            match engine::newest_entry(v, files, key) {
                Ok(e) => levels::shown(e) is Some,
                Err(_) => false,
            },
    )
}

/// The number of records of an engine is the number of keys under which it holds values, as far as
/// the machine can count: older entries and tombstones do not count.
pub proof fn law_total_counts_active_records(v: EngineView, files: spec_fn(u64) -> FileView)
    requires
        newest_first(v, files),
        iterator::scan_sources(v.memory, v.waiting, v.tables, files, None, None) matches Ok(src)
            && iterator::live(iterator::merged(src)).len() <= usize::MAX,
    ensures
        active(v, files).finite(),
        engine::record_count(v, files) == Ok::<nat, ErrorView>(active(v, files).len()),
{
    lemma_scan_sources(v, files, None, None, 0);
    let src = iterator::scan_sources(v.memory, v.waiting, v.tables, files, None, None)->Ok_0;
    let all = iterator::merged(src);
    let s = iterator::live(all);
    lemma_live(all, 0, Seq::empty());
    let keys = s.map_values(|item: (u128, Seq<u8>)| item.0);
    assert forall|i: int, j: int| 0 <= i < j < keys.len() implies keys[i] != keys[j] by {
        assert(s[i].0 < s[j].0);
    }
    assert(keys.no_duplicates());
    keys.unique_seq_to_set();
    assert forall|key: u128| keys.to_set().contains(key) <==> active(v, files).contains(key) by {
        lemma_scan_sources(v, files, None, None, key);
        if keys.to_set().contains(key) {
            let i = choose|i: int| 0 <= i < keys.len() && keys[i] == key;
            lemma_live(all, key, s[i].1);
            assert(s.contains((key, s[i].1)));
        }
        if active(v, files).contains(key) {
            let value = levels::shown(engine::newest_entry(v, files, key)->Ok_0).unwrap();
            lemma_live(all, key, value);
            let i = choose|i: int| 0 <= i < s.len() && s[i] == (key, value);
            assert(keys[i] == key);
        }
    }
    assert(keys.to_set() =~= active(v, files));
}

} // verus!
