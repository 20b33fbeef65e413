//! What an engine's log keeps of it, and the engine that is opened again.
use vstd::prelude::*;

use crate::storage::bloom_filter::BloomView;
use crate::storage::engine::{EngineView, OpView, TableFile};
use crate::storage::sstable::{FileView, TableView};
use crate::storage::{compaction, engine, laws, levels, memtable, order, sstable, wal};
use crate::types::{EntryView, ErrorView};

verus! {

/// The last entry of a log under a key.
pub open spec fn last_in(log: Seq<(u128, EntryView)>, key: u128) -> Option<EntryView> {
    if engine::loaded(log).contains_key(key) {
        Some(engine::loaded(log)[key])
    } else {
        None
    }
}

/// The log's last entry under a key is at least as new as some entry.
pub open spec fn behind(log: Seq<(u128, EntryView)>, key: u128, e: EntryView) -> bool {
    last_in(log, key) matches Some(l) && e.seq_num <= l.seq_num
}

/// The value that an engine has stored under a key, whether or not the key has expired.
pub open spec fn stored(
    v: EngineView,
    files: spec_fn(u64) -> FileView,
    key: u128,
) -> core::result::Result<Option<Seq<u8>>, ErrorView> {
    match engine::newest_entry(v, files, key) {
        Ok(e) => Ok(levels::shown(e)),
        Err(e) => Err(e),
    }
}

/// A log keeps what an engine holds: its last entries are at least as new as all that the engine
/// holds, and give the values that the engine has stored.
pub open spec fn logged(
    v: EngineView,
    files: spec_fn(u64) -> FileView,
    log: Seq<(u128, EntryView)>,
) -> bool {
    &&& wal::max_seq(log) < v.next_seq
    &&& forall|key: u128| #[trigger]
        v.memory.contains_key(key) ==> behind(log, key, v.memory[key])
    &&& forall|i: int, key: u128|
        0 <= i < v.waiting.len() && #[trigger] v.waiting[i].contains_key(key) ==> behind(
            log,
            key,
            v.waiting[i][key],
        )
    &&& forall|i: int, key: u128|
        0 <= i < v.tables.len() && #[trigger] levels::found(v.tables[i], files, key) is Some
            ==> behind(log, key, levels::found(v.tables[i], files, key).unwrap())
    &&& forall|key: u128| #[trigger]
        stored(v, files, key) == Ok::<Option<Seq<u8>>, ErrorView>(levels::shown(last_in(log, key)))
}

// ---------------------------------------------------------------------------------------------
// Batches
// ---------------------------------------------------------------------------------------------
/// The entries that a batch adds to the log.
pub open spec fn batch_entries(ops: Seq<OpView>, first_seq: u64, timestamp: u64) -> Seq<
    (u128, EntryView),
> {
    laws::record_entries(engine::batch_records(ops, first_seq, timestamp))
}

proof fn lemma_batch_in_log(
    log: Seq<(u128, EntryView)>,
    ops: Seq<OpView>,
    first_seq: u64,
    timestamp: u64,
    key: u128,
)
    requires
        first_seq + ops.len() <= u64::MAX,
        wal::max_seq(log) < first_seq,
    ensures
        ({
            let all = log + batch_entries(ops, first_seq, timestamp);
            &&& wal::max_seq(all) < first_seq + ops.len()
            &&& match laws::last_op(ops, key) {
                None => last_in(all, key) == last_in(log, key),
                Some(o) => last_in(all, key) matches Some(l) && l.seq_num >= first_seq && l.value
                    == engine::op_entry(o, first_seq, timestamp).value,
            }
        }),
    decreases ops.len(),
{
    let entries = batch_entries(ops, first_seq, timestamp);
    let all = log + entries;
    if ops.len() == 0 {
        assert(all =~= log);
    } else {
        lemma_batch_in_log(log, ops.drop_last(), first_seq, timestamp, key);
        let fewer = batch_entries(ops.drop_last(), first_seq, timestamp);
        assert(entries.drop_last() =~= fewer);
        assert(all.drop_last() =~= log + fewer);
        assert(all.last() == entries.last());
        assert(wal::seq_after(first_seq, ops.len() - 1) == first_seq + ops.len() - 1);
    }
}

/// Rotating the memory table leaves the engine as its log keeps it.
pub proof fn law_rotation_keeps_the_log(
    v: EngineView,
    files: spec_fn(u64) -> FileView,
    log: Seq<(u128, EntryView)>,
)
    requires
        v.memory.dom().finite(),
        logged(v, files, log),
    ensures
        logged(engine::rotated(v), files, log),
{
    let w = engine::rotated(v);
    if v.memory.len() != 0 {
        assert forall|i: int, key: u128|
            0 <= i < w.waiting.len() && #[trigger] w.waiting[i].contains_key(key) implies behind(
            log,
            key,
            w.waiting[i][key],
        ) by {
            if i < v.waiting.len() {
                assert(w.waiting[i] == v.waiting[i]);
            }
        }
        assert(w.waiting.drop_last() =~= v.waiting);
        assert forall|key: u128| #[trigger]
            stored(w, files, key) == Ok::<Option<Seq<u8>>, ErrorView>(
                levels::shown(last_in(log, key)),
            ) by {
            assert(stored(v, files, key) == stored(w, files, key));
        }
    }
}

/// A batch whose records end the log leaves the engine as the log keeps it, as long as the sequence
/// numbers have not run out.
pub proof fn law_batch_is_logged(
    v: EngineView,
    ops: Seq<OpView>,
    now_ms: u64,
    files: spec_fn(u64) -> FileView,
    log: Seq<(u128, EntryView)>,
)
    requires
        order::newest_first(v, files),
        logged(v, files, log),
        v.next_seq + ops.len() <= u64::MAX,
    ensures
        logged(
            engine::after_batch(
                EngineView { next_seq: wal::seq_after(v.next_seq, ops.len() as int), ..v },
                ops,
                v.next_seq,
                now_ms,
            ),
            files,
            log + batch_entries(ops, v.next_seq, now_ms),
        ),
{
    let seq = v.next_seq;
    let all = log + batch_entries(ops, seq, now_ms);
    let w = EngineView {
        memory: engine::applied(v.memory, ops, seq, now_ms),
        memory_size: engine::applied_size(v.memory_size, ops),
        next_seq: wal::seq_after(seq, ops.len() as int),
        ..v
    };
    assert(w.next_seq == seq + ops.len());
    lemma_batch_in_log(log, ops, seq, now_ms, 0);
    assert forall|key: u128, e: EntryView|
        behind(log, key, e) && e.seq_num < seq implies #[trigger] behind(all, key, e) by {
        lemma_batch_in_log(log, ops, seq, now_ms, key);
    }
    assert forall|key: u128| #[trigger] w.memory.contains_key(key) implies behind(
        all,
        key,
        w.memory[key],
    ) by {
        laws::lemma_applied(v.memory, ops, seq, now_ms, key);
        lemma_batch_in_log(log, ops, seq, now_ms, key);
        if laws::last_op(ops, key) is None {
            assert(v.memory.contains_key(key));
        }
    }
    assert forall|i: int, key: u128|
        0 <= i < w.waiting.len() && #[trigger] w.waiting[i].contains_key(key) implies behind(
        all,
        key,
        w.waiting[i][key],
    ) by {
        assert(v.waiting[i].contains_key(key));
        assert(order::older_than_memory(v, v.waiting[i][key], key, i + 1));
    }
    assert forall|i: int, key: u128|
        0 <= i < w.tables.len() && #[trigger] levels::found(
            w.tables[i],
            files,
            key,
        ) is Some implies behind(all, key, levels::found(w.tables[i], files, key).unwrap()) by {
        assert(order::not_newer(v, levels::found(v.tables[i], files, key).unwrap(), key));
    }
    assert forall|key: u128| #[trigger]
        stored(w, files, key) == Ok::<Option<Seq<u8>>, ErrorView>(levels::shown(last_in(all, key))) by {
        assert(stored(v, files, key) == Ok::<Option<Seq<u8>>, ErrorView>(
            levels::shown(last_in(log, key)),
        ));
        laws::lemma_applied(v.memory, ops, seq, now_ms, key);
        lemma_batch_in_log(log, ops, seq, now_ms, key);
    }
    assert(logged(w, files, all));
    if ops.len() == 0 {
        assert(all =~= log);
    } else {
        laws::lemma_applied(v.memory, ops, seq, now_ms, 0);
        law_rotation_keeps_the_log(w, files, all);
    }
}

// ---------------------------------------------------------------------------------------------
// Flushes and compactions
// ---------------------------------------------------------------------------------------------
/// A flush leaves the engine as its log keeps it.
pub proof fn law_flush_keeps_the_log(
    v: EngineView,
    path: Seq<char>,
    t: TableView,
    empty_bloom: BloomView,
    bloom: BloomView,
    files: spec_fn(u64) -> FileView,
    with_file: spec_fn(u64) -> FileView,
    log: Seq<(u128, EntryView)>,
)
    requires
        order::newest_first(v, files),
        logged(v, files, log),
        v.waiting.len() > 0,
        v.waiting[0].len() > 0,
        empty_bloom.bytes.len() > 0,
        sstable::all_inserted(empty_bloom, memtable::sorted_range(v.waiting[0], None, None), bloom),
        sstable::lengths_fit(
            memtable::sorted_range(v.waiting[0], None, None),
            sstable::DEFAULT_BLOCK_SIZE as nat,
            bloom,
        ),
        sstable::opened_image(
            path,
            sstable::file_bytes(
                memtable::sorted_range(v.waiting[0], None, None),
                sstable::DEFAULT_BLOCK_SIZE as nat,
                bloom,
            ),
            v.next_sst_id,
            0,
        ) == Ok::<TableView, ErrorView>(t),
        with_file(v.next_sst_id) == sstable::file_of(
            sstable::file_bytes(
                memtable::sorted_range(v.waiting[0], None, None),
                sstable::DEFAULT_BLOCK_SIZE as nat,
                bloom,
            ),
        ),
        forall|id: u64| id != v.next_sst_id ==> #[trigger] with_file(id) == files(id),
    ensures
        logged(
            EngineView {
                waiting: v.waiting.skip(1),
                tables: seq![t] + v.tables,
                next_sst_id: v.next_sst_id.wrapping_add(1),
                ..v
            },
            with_file,
            log,
        ),
{
    let m = v.waiting[0];
    let s = memtable::sorted_range(m, None, None);
    let w = EngineView {
        waiting: v.waiting.skip(1),
        tables: seq![t] + v.tables,
        next_sst_id: v.next_sst_id.wrapping_add(1),
        ..v
    };
    assert forall|i: int, key: u128|
        0 <= i < w.waiting.len() && #[trigger] w.waiting[i].contains_key(key) implies behind(
        log,
        key,
        w.waiting[i][key],
    ) by {
        assert(w.waiting[i] == v.waiting[i + 1]);
        assert(v.waiting[i + 1].contains_key(key));
    }
    assert forall|i: int, key: u128|
        0 <= i < w.tables.len() && #[trigger] levels::found(
            w.tables[i],
            with_file,
            key,
        ) is Some implies behind(log, key, levels::found(w.tables[i], with_file, key).unwrap()) by {
        if i == 0 {
            order::lemma_flushed_found(v, path, t, empty_bloom, bloom, with_file, key);
            assert(v.waiting[0].contains_key(key));
        } else {
            assert(w.tables[i] == v.tables[i - 1]);
            assert(levels::found(v.tables[i - 1], files, key) is Some);
        }
    }
    assert forall|key: u128| #[trigger]
        stored(w, with_file, key) == Ok::<Option<Seq<u8>>, ErrorView>(
            levels::shown(last_in(log, key)),
        ) by {
        let bare = EngineView { ttls: Map::empty(), ..v };
        laws::law_flush_keeps_reads(
            bare,
            path,
            t,
            empty_bloom,
            bloom,
            files,
            with_file,
            key,
            0,
        );
        assert(stored(v, files, key) == engine::value_of(bare, files, key, 0));
        assert(stored(w, with_file, key) == engine::value_of(
            EngineView { ttls: Map::empty(), ..w },
            with_file,
            key,
            0,
        ));
    }
}

/// A compaction leaves the engine as its log keeps it.
pub proof fn law_compaction_keeps_the_log(
    v: EngineView,
    files: spec_fn(u64) -> FileView,
    l0_trigger: nat,
    s: Seq<(u128, EntryView)>,
    empty_bloom: BloomView,
    bloom: BloomView,
    with_file: spec_fn(u64) -> FileView,
    t: TableView,
    log: Seq<(u128, EntryView)>,
)
    requires
        order::newest_first(v, files),
        logged(v, files, log),
        compaction::plan_for(v.tables, l0_trigger) matches Some(plan) && levels::merged_into(
            v.tables,
            files,
            plan,
            s,
            empty_bloom,
            bloom,
            with_file,
            t,
        ),
    ensures
        logged(order::compacted_engine(v, l0_trigger, t), with_file, log),
{
    let after = order::compacted_engine(v, l0_trigger, t);
    assert forall|i: int, key: u128|
        0 <= i < after.tables.len() && #[trigger] levels::found(
            after.tables[i],
            with_file,
            key,
        ) is Some implies behind(
        log,
        key,
        levels::found(after.tables[i], with_file, key).unwrap(),
    ) by {
        let x = levels::lemma_entry_was_there(
            v.tables,
            files,
            l0_trigger,
            s,
            empty_bloom,
            bloom,
            with_file,
            t,
            i,
            key,
        );
        assert(levels::found(v.tables[x], files, key) is Some);
    }
    assert forall|key: u128| #[trigger]
        stored(after, with_file, key) == Ok::<Option<Seq<u8>>, ErrorView>(
            levels::shown(last_in(log, key)),
        ) by {
        order::lemma_compaction_entry(
            v,
            files,
            l0_trigger,
            s,
            empty_bloom,
            bloom,
            with_file,
            t,
            key,
        );
        assert(stored(v, files, key) == Ok::<Option<Seq<u8>>, ErrorView>(
            levels::shown(last_in(log, key)),
        ));
    }
}

// ---------------------------------------------------------------------------------------------
// Opening again
// ---------------------------------------------------------------------------------------------
/// A table is one of some tables, opened again: on the first level.
pub open spec fn opened_again(t: TableView, tables: Seq<TableView>) -> bool {
    exists|j: int|
        0 <= j < tables.len() && t == (TableView { level: 0, ..#[trigger] tables[j] })
}

/// A directory lists table files: each opens as one of some tables, and no two have one number.
pub open spec fn lists(
    listing: Seq<TableFile>,
    files: spec_fn(u64) -> FileView,
    tables: Seq<TableView>,
) -> bool {
    &&& forall|k: int|
        0 <= k < listing.len() ==> (sstable::opened(
            (#[trigger] listing[k]).path@,
            files(listing[k].id),
            listing[k].len as int,
            listing[k].id,
            0,
        ) matches Ok(t) && opened_again(t, tables))
    &&& forall|j: int, k: int|
        0 <= j < k < listing.len() ==> (#[trigger] listing[j]).id != (#[trigger] listing[k]).id
}

/// An engine that is opened on the log and the table files that an engine in order left behind is in
/// order, is as the log keeps it, and has stored the same values.
pub proof fn law_reopened_engine_is_in_order(
    left: EngineView,
    files: spec_fn(u64) -> FileView,
    log: Seq<(u128, EntryView)>,
    listing: Seq<TableFile>,
    v: EngineView,
    key: u128,
)
    requires
        order::newest_first(left, files),
        logged(left, files, log),
        lists(listing, files, left.tables),
        v.memory == engine::loaded(log),
        v.next_seq == wal::max_seq(log) + 1,
        v.waiting.len() == 0,
        v.tables == engine::sorted_tables(
            engine::opened_tables(listing, files, listing.len() as int),
        ),
        v.next_sst_id == engine::max_id(listing, listing.len() as int) + 1,
    ensures
        order::newest_first(v, files),
        logged(v, files, log),
        stored(v, files, key) == stored(left, files, key),
{
    lemma_listed(listing, files, left.tables, listing.len() as int);
    lemma_reopened(left, files, log, v, key);
}

/// The listed tables, sorted.
proof fn lemma_listed(
    listing: Seq<TableFile>,
    files: spec_fn(u64) -> FileView,
    tables: Seq<TableView>,
    n: int,
)
    requires
        0 <= n <= listing.len(),
        lists(listing, files, tables),
    ensures
        ({
            let s = engine::sorted_tables(engine::opened_tables(listing, files, n));
            &&& levels::strictly_sorted(s)
            &&& forall|i: int|
                0 <= i < s.len() ==> opened_again(#[trigger] s[i], tables) && s[i].id
                    <= engine::max_id(listing, n) && exists|k: int|
                    0 <= k < n && (#[trigger] listing[k]).id == s[i].id
        }),
    decreases n,
{
    if n > 0 {
        lemma_listed(listing, files, tables, n - 1);
        let f = listing[n - 1];
        let head = engine::opened_tables(listing, files, n - 1);
        let s = engine::sorted_tables(head);
        let t = sstable::opened(f.path@, files(f.id), f.len as int, f.id, 0)->Ok_0;
        assert(opened_again(t, tables));
        assert(t.id == f.id);
        assert(head.push(t).drop_last() =~= head);
        assert forall|i: int| 0 <= i < s.len() implies (#[trigger] s[i]).id != t.id by {
            let k = choose|k: int| 0 <= k < n - 1 && (#[trigger] listing[k]).id == s[i].id;
            assert(listing[k].id != listing[n - 1].id);
        }
        let k = levels::lemma_placed(s, t);
        let more = s.insert(k, t);
        assert(engine::sorted_tables(engine::opened_tables(listing, files, n)) == more);
        assert forall|i: int| 0 <= i < more.len() implies opened_again(#[trigger] more[i], tables)
            && more[i].id <= engine::max_id(listing, n) && exists|j: int|
            0 <= j < n && (#[trigger] listing[j]).id == more[i].id by {
            if i == k {
                assert(listing[n - 1].id == more[i].id);
            } else {
                let x = if i < k {
                    i
                } else {
                    i - 1
                };
                assert(more[i] == s[x]);
                let j = choose|j: int| 0 <= j < n - 1 && (#[trigger] listing[j]).id == s[x].id;
                assert(listing[j].id == more[i].id);
            }
        }
        assert forall|i: int, j: int| 0 <= i < j < more.len() implies levels::precedes(
            #[trigger] more[i],
            #[trigger] more[j],
        ) by {
            let x = if i < k {
                i
            } else {
                i - 1
            };
            let y = if j < k {
                j
            } else {
                j - 1
            };
            if i == k {
                assert(more[j] == s[y]);
            } else if j == k {
                assert(more[i] == s[x]);
            } else {
                assert(more[i] == s[x] && more[j] == s[y]);
            }
        }
    }
}

/// An engine on the log and on tables that an engine in order left behind.
proof fn lemma_reopened(
    left: EngineView,
    files: spec_fn(u64) -> FileView,
    log: Seq<(u128, EntryView)>,
    v: EngineView,
    key: u128,
)
    requires
        order::newest_first(left, files),
        logged(left, files, log),
        v.memory == engine::loaded(log),
        v.next_seq == wal::max_seq(log) + 1,
        v.waiting.len() == 0,
        forall|i: int| 0 <= i < v.tables.len() ==> opened_again(#[trigger] v.tables[i], left.tables),
        levels::strictly_sorted(v.tables),
        forall|i: int| 0 <= i < v.tables.len() ==> (#[trigger] v.tables[i]).id < v.next_sst_id,
    ensures
        order::newest_first(v, files),
        logged(v, files, log),
        stored(v, files, key) == stored(left, files, key),
{
    order::lemma_loaded_seq(log, 0);
    assert forall|k: u128| #[trigger] v.memory.contains_key(k) implies v.memory[k].seq_num
        < v.next_seq by {
        order::lemma_loaded_seq(log, k);
    }
    assert forall|i: int| 0 <= i < v.tables.len() implies (#[trigger] v.tables[i]).level <= 2
        && v.tables[i].min_key <= v.tables[i].max_key && levels::readable(
        v.tables[i],
        files(v.tables[i].id),
    ) by {
        let j = lemma_came_from(left, files, v.tables[i]);
    }
    assert forall|i: int, j: int| 0 <= i < j < v.tables.len() implies levels::pair_ok(
        #[trigger] v.tables[i],
        #[trigger] v.tables[j],
    ) by {
        let a = lemma_came_from(left, files, v.tables[i]);
        let b = lemma_came_from(left, files, v.tables[j]);
        assert(levels::precedes(v.tables[i], v.tables[j]));
        assert(a < b ==> levels::pair_ok(left.tables[a], left.tables[b]));
        assert(b < a ==> levels::pair_ok(left.tables[b], left.tables[a]));
    }
    assert forall|i: int, k: u128|
        0 <= i < v.tables.len() && #[trigger] levels::found(
            v.tables[i],
            files,
            k,
        ) is Some implies v.memory.contains_key(k) && levels::found(
        v.tables[i],
        files,
        k,
    ).unwrap().seq_num <= v.memory[k].seq_num by {
        let j = lemma_came_from(left, files, v.tables[i]);
        assert(levels::found(left.tables[j], files, k) is Some);
        assert(behind(log, k, levels::found(left.tables[j], files, k).unwrap()));
    }
    assert forall|k: u128| order::in_memory(v, k) || levels::settled(v.tables, files, k) by {
        if !v.memory.contains_key(k) {
            let r = levels::lemma_first_place(v.tables, files, k);
            if levels::first_in(v.tables, files, k) is Some {
                assert(levels::found(v.tables[r], files, k) is Some);
            }
        }
    }
    assert forall|k: u128| #[trigger]
        stored(v, files, k) == Ok::<Option<Seq<u8>>, ErrorView>(levels::shown(last_in(log, k))) by {
        if !v.memory.contains_key(k) {
            levels::lemma_lookup_is_first(v.tables, files, k);
            let r = levels::lemma_first_place(v.tables, files, k);
            if levels::first_in(v.tables, files, k) is Some {
                assert(levels::found(v.tables[r], files, k) is Some);
            }
        }
    }
    assert(stored(left, files, key) == Ok::<Option<Seq<u8>>, ErrorView>(
        levels::shown(last_in(log, key)),
    ));
}

/// A table that was opened again can be read, and has under every key what it had.
proof fn lemma_came_from(
    left: EngineView,
    files: spec_fn(u64) -> FileView,
    t: TableView,
) -> (j: int)
    requires
        order::newest_first(left, files),
        opened_again(t, left.tables),
    ensures
        0 <= j < left.tables.len(),
        t == (TableView { level: 0, ..left.tables[j] }),
        t.min_key <= t.max_key,
        levels::readable(t, files(t.id)),
        forall|k: u128| #[trigger]
            levels::found(t, files, k) == levels::found(left.tables[j], files, k),
{
    let j = choose|j: int|
        0 <= j < left.tables.len() && t == (TableView { level: 0, ..#[trigger] left.tables[j] });
    let u = left.tables[j];
    let s = choose|s: Seq<(u128, EntryView)>| #[trigger] levels::holds(u, files(u.id), s);
    assert(levels::readable(u, files(u.id)));
    assert forall|k: u128| #[trigger]
        sstable::table_find(t, files(t.id), k) == sstable::table_find(u, files(u.id), k) by {}
    assert(sstable::table_entries(t, files(t.id)) == sstable::table_entries(u, files(u.id)));
    assert forall|k: u128| #[trigger]
        sstable::table_find(t, files(t.id), k) == Ok::<Option<EntryView>, ErrorView>(
            sstable::lookup(s, k),
        ) by {
        assert(sstable::table_find(u, files(u.id), k) == Ok::<Option<EntryView>, ErrorView>(
            sstable::lookup(s, k),
        ));
    }
    assert(levels::holds(t, files(t.id), s));
    j
}

} // verus!
