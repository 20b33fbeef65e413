//! What holds of an engine after every sequence of its steps.
use bytes::Bytes;
use vstd::prelude::*;

use crate::storage::bloom_filter::BloomView;
use crate::storage::engine::{EngineView, OpView, TableFile};
use crate::storage::sstable::{FileView, Reads, TableView};
use crate::storage::{
    compaction, engine, iterator, laws, levels, memtable, order, restart, sstable, wal,
};
use crate::types::{EntryView, ErrorView, PlayerId, Result};

verus! {

// ---------------------------------------------------------------------------------------------
// Steps
// ---------------------------------------------------------------------------------------------
/// An engine with its files and the log of what was applied to it.
pub struct Moment {
    pub engine: EngineView,
    pub files: spec_fn(u64) -> FileView,
    pub log: Seq<(u128, EntryView)>,
}

/// A flush: the file that is made, the table that it opens as, the filter before and after.
pub struct FlushOf {
    pub path: Seq<char>,
    pub t: TableView,
    pub empty_bloom: BloomView,
    pub bloom: BloomView,
}

/// A compaction: how many tables it takes to start one, the merged entries, the filter before and
/// after, and the new table.
pub struct CompactionOf {
    pub l0_trigger: nat,
    pub s: Seq<(u128, EntryView)>,
    pub empty_bloom: BloomView,
    pub bloom: BloomView,
    pub t: TableView,
}

/// An engine that was opened on a log, without tables.
pub open spec fn starts(m: Moment) -> bool {
    &&& m.engine.tables.len() == 0
    &&& m.engine.waiting.len() == 0
    &&& m.engine.memory == engine::loaded(m.log)
    &&& m.engine.next_seq == wal::max_seq(m.log) + 1
}

/// A batch was logged and applied.
pub open spec fn writes(a: Moment, ops: Seq<OpView>, now_ms: u64, b: Moment) -> bool {
    let v = a.engine;
    &&& v.next_seq + ops.len() <= u64::MAX
    &&& b.engine == engine::after_batch(
        EngineView { next_seq: wal::seq_after(v.next_seq, ops.len() as int), ..v },
        ops,
        v.next_seq,
        now_ms,
    )
    &&& b.files == a.files
    &&& b.log == a.log + restart::batch_entries(ops, v.next_seq, now_ms)
}

/// A batch that was numbered before, and logged, was applied. Other batches may have been numbered and
/// applied meanwhile, of other keys: the log holds nothing newer under the keys of the batch.
pub open spec fn applies(a: Moment, ops: Seq<OpView>, seq_num: u64, now_ms: u64, b: Moment) -> bool {
    &&& seq_num + ops.len() <= a.engine.next_seq
    &&& forall|key: u128| #[trigger]
        laws::last_op(ops, key) is Some ==> (restart::last_in(a.log, key) matches Some(l)
            ==> l.seq_num < seq_num)
    &&& b.engine == engine::after_batch(a.engine, ops, seq_num, now_ms)
    &&& b.files == a.files
    &&& b.log == a.log + restart::batch_entries(ops, seq_num, now_ms)
}

/// The active memory table was rotated.
pub open spec fn rotates(a: Moment, b: Moment) -> bool {
    b == (Moment { engine: engine::rotated(a.engine), ..a })
}

/// The oldest memory table that waits was flushed to a new file, which was stored.
pub open spec fn flushes(a: Moment, f: FlushOf, b: Moment) -> bool {
    let v = a.engine;
    let entries = memtable::sorted_range(v.waiting[0], None, None);
    let image = sstable::file_bytes(entries, sstable::DEFAULT_BLOCK_SIZE as nat, f.bloom);
    &&& v.waiting.len() > 0
    &&& v.waiting[0].len() > 0
    &&& v.next_sst_id < u64::MAX
    &&& f.empty_bloom.bytes.len() > 0
    &&& sstable::all_inserted(f.empty_bloom, entries, f.bloom)
    &&& sstable::lengths_fit(entries, sstable::DEFAULT_BLOCK_SIZE as nat, f.bloom)
    &&& sstable::opened_image(f.path, image, v.next_sst_id, 0) == Ok::<TableView, ErrorView>(f.t)
    &&& forall|i: int| 0 <= i < v.tables.len() ==> (#[trigger] v.tables[i]).path != f.path
    &&& (b.files)(v.next_sst_id) == sstable::file_of(image)
    &&& forall|id: u64| id != v.next_sst_id ==> #[trigger] (b.files)(id) == (a.files)(id)
    &&& b.engine == (EngineView {
        waiting: v.waiting.skip(1),
        tables: seq![f.t] + v.tables,
        next_sst_id: v.next_sst_id.wrapping_add(1),
        ..v
    })
    &&& b.log == a.log
}

/// The tables of a plan were merged into a new one.
pub open spec fn merges(a: Moment, c: CompactionOf, b: Moment) -> bool {
    let v = a.engine;
    &&& v.next_sst_id < u64::MAX
    &&& c.t.id == v.next_sst_id
    &&& compaction::plan_for(v.tables, c.l0_trigger) matches Some(plan) && levels::merged_into(
        v.tables,
        a.files,
        plan,
        c.s,
        c.empty_bloom,
        c.bloom,
        b.files,
        c.t,
    )
    &&& b.engine == order::compacted_engine(v, c.l0_trigger, c.t)
    &&& b.log == a.log
}

/// The engine was opened again on its log and its table files.
pub open spec fn reopens(a: Moment, listing: Seq<TableFile>, b: Moment) -> bool {
    &&& restart::lists(listing, a.files, a.engine.tables)
    &&& b.engine.memory == engine::loaded(a.log)
    &&& b.engine.next_seq == wal::max_seq(a.log) + 1
    &&& b.engine.waiting.len() == 0
    &&& b.engine.tables == engine::sorted_tables(
        engine::opened_tables(listing, a.files, listing.len() as int),
    )
    &&& b.engine.next_sst_id == engine::max_id(listing, listing.len() as int) + 1
    &&& b.files == a.files
    &&& b.log == a.log
}

/// Nothing but times of expiry, the limit of the memory table, or numbers not given yet changed; numbers
/// only grow, as where a write or a compaction has failed.
pub open spec fn settles(a: Moment, b: Moment) -> bool {
    &&& a.engine.next_seq <= b.engine.next_seq
    &&& a.engine.next_sst_id <= b.engine.next_sst_id
    &&& b == (Moment {
        engine: EngineView {
            ttls: b.engine.ttls,
            limit: b.engine.limit,
            next_seq: b.engine.next_seq,
            next_sst_id: b.engine.next_sst_id,
            ..a.engine
        },
        ..a
    })
}

/// All records were dropped, and the log was emptied.
pub open spec fn empties(a: Moment, b: Moment) -> bool {
    &&& b.engine == (EngineView {
        memory: Map::empty(),
        memory_size: 0,
        waiting: Seq::empty(),
        tables: Seq::empty(),
        ttls: Map::empty(),
        ..a.engine
    })
    &&& b.files == a.files
    &&& b.log == Seq::<(u128, EntryView)>::empty()
}

/// One step of an engine.
pub open spec fn steps(a: Moment, b: Moment) -> bool {
    ||| exists|ops: Seq<OpView>, now_ms: u64| #[trigger] writes(a, ops, now_ms, b)
    ||| exists|ops: Seq<OpView>, seq_num: u64, now_ms: u64| #[trigger]
        applies(a, ops, seq_num, now_ms, b)
    ||| rotates(a, b)
    ||| exists|f: FlushOf| #[trigger] flushes(a, f, b)
    ||| exists|c: CompactionOf| #[trigger] merges(a, c, b)
    ||| exists|listing: Seq<TableFile>| #[trigger] reopens(a, listing, b)
    ||| settles(a, b)
    ||| empties(a, b)
}

/// A sequence of steps from the start.
pub open spec fn is_history(s: Seq<Moment>) -> bool {
    &&& s.len() > 0
    &&& starts(s[0])
    &&& forall|i: int, j: int|
        0 <= i && j == i + 1 && j < s.len() ==> steps(#[trigger] s[i], #[trigger] s[j])
}

/// An engine is in order, and its log keeps what it holds.
pub open spec fn sound(m: Moment) -> bool {
    &&& order::newest_first(m.engine, m.files)
    &&& restart::logged(m.engine, m.files, m.log)
}

// ---------------------------------------------------------------------------------------------
// Laws
// ---------------------------------------------------------------------------------------------
proof fn lemma_start_is_sound(m: Moment)
    requires
        starts(m),
    ensures
        sound(m),
{
    order::law_fresh_engine_is_in_order(m.engine, m.log, m.files);
    assert forall|key: u128| #[trigger] restart::stored(m.engine, m.files, key) == Ok::<
        Option<Seq<u8>>,
        ErrorView,
    >(levels::shown(restart::last_in(m.log, key))) by {
        assert(engine::in_waiting(m.engine.waiting, key) is None);
        assert(engine::in_tables(m.engine.tables, m.files, key, 0) == Ok::<
            Option<EntryView>,
            ErrorView,
        >(None));
    }
}

proof fn lemma_settling_is_sound(a: Moment, b: Moment)
    requires
        sound(a),
        settles(a, b),
    ensures
        sound(b),
{
    let v = a.engine;
    let w = b.engine;
    assert forall|i: int, key: u128|
        0 <= i < w.waiting.len() && #[trigger] w.waiting[i].contains_key(
            key,
        ) implies order::older_than_memory(w, w.waiting[i][key], key, i + 1) by {
        assert(order::older_than_memory(v, v.waiting[i][key], key, i + 1));
    }
    assert forall|i: int, key: u128|
        0 <= i < w.tables.len() && #[trigger] levels::found(
            w.tables[i],
            b.files,
            key,
        ) is Some implies order::not_newer(
        w,
        levels::found(w.tables[i], b.files, key).unwrap(),
        key,
    ) by {
        assert(order::not_newer(v, levels::found(v.tables[i], a.files, key).unwrap(), key));
    }
    assert forall|key: u128|
        #![trigger order::in_memory(w, key)]
        #![trigger levels::settled(w.tables, b.files, key)]
        order::in_memory(w, key) || levels::settled(w.tables, b.files, key) by {
        assert(order::in_memory(v, key) == order::in_memory(w, key));
    }
    assert forall|key: u128| #[trigger] restart::stored(w, b.files, key) == Ok::<
        Option<Seq<u8>>,
        ErrorView,
    >(levels::shown(restart::last_in(b.log, key))) by {
        assert(restart::stored(v, a.files, key) == restart::stored(w, b.files, key));
    }
}

proof fn lemma_entries_in_log(
    log: Seq<(u128, EntryView)>,
    ops: Seq<OpView>,
    seq_num: u64,
    now_ms: u64,
    next_seq: u64,
    key: u128,
)
    requires
        seq_num + ops.len() <= next_seq,
        wal::max_seq(log) < next_seq,
    ensures
        ({
            let all = log + restart::batch_entries(ops, seq_num, now_ms);
            &&& wal::max_seq(all) < next_seq
            &&& match laws::last_op(ops, key) {
                None => restart::last_in(all, key) == restart::last_in(log, key),
                Some(o) => restart::last_in(all, key) matches Some(l) && l.seq_num >= seq_num
                    && l.value == engine::op_entry(o, seq_num, now_ms).value,
            }
        }),
    decreases ops.len(),
{
    let entries = restart::batch_entries(ops, seq_num, now_ms);
    let all = log + entries;
    if ops.len() == 0 {
        assert(all =~= log);
    } else {
        lemma_entries_in_log(log, ops.drop_last(), seq_num, now_ms, next_seq, key);
        let fewer = restart::batch_entries(ops.drop_last(), seq_num, now_ms);
        assert(entries.drop_last() =~= fewer);
        assert(all.drop_last() =~= log + fewer);
        assert(all.last() == entries.last());
        assert(wal::seq_after(seq_num, ops.len() - 1) == seq_num + ops.len() - 1);
    }
}

/// A memory table after a batch, before it is rotated.
spec fn filled(v: EngineView, ops: Seq<OpView>, seq_num: u64, now_ms: u64) -> EngineView {
    EngineView {
        memory: engine::applied(v.memory, ops, seq_num, now_ms),
        memory_size: engine::applied_size(v.memory_size, ops),
        ..v
    }
}

proof fn lemma_filling_keeps_the_order(
    a: Moment,
    ops: Seq<OpView>,
    seq_num: u64,
    now_ms: u64,
    b: Moment,
)
    requires
        sound(a),
        applies(a, ops, seq_num, now_ms, b),
        ops.len() > 0,
    ensures
        order::newest_first(filled(a.engine, ops, seq_num, now_ms), a.files),
{
    let v = a.engine;
    let w = filled(v, ops, seq_num, now_ms);
    laws::lemma_applied(v.memory, ops, seq_num, now_ms, 0);
    assert forall|key: u128| #[trigger] w.memory.contains_key(key) implies w.memory[key].seq_num
        < w.next_seq by {
        laws::lemma_applied(v.memory, ops, seq_num, now_ms, key);
    }
    assert forall|i: int, key: u128|
        0 <= i < w.waiting.len() && #[trigger] w.waiting[i].contains_key(
            key,
        ) implies order::older_than_memory(w, w.waiting[i][key], key, i + 1) by {
        assert(order::older_than_memory(v, v.waiting[i][key], key, i + 1));
        assert(restart::behind(a.log, key, v.waiting[i][key]));
        laws::lemma_applied(v.memory, ops, seq_num, now_ms, key);
    }
    assert forall|i: int, key: u128|
        0 <= i < w.tables.len() && #[trigger] levels::found(
            w.tables[i],
            a.files,
            key,
        ) is Some implies order::not_newer(
        w,
        levels::found(w.tables[i], a.files, key).unwrap(),
        key,
    ) by {
        let e = levels::found(v.tables[i], a.files, key).unwrap();
        assert(order::not_newer(v, e, key));
        assert(restart::behind(a.log, key, e));
        laws::lemma_applied(v.memory, ops, seq_num, now_ms, key);
    }
    assert forall|key: u128|
        #![trigger order::in_memory(w, key)]
        #![trigger levels::settled(w.tables, a.files, key)]
        order::in_memory(w, key) || levels::settled(w.tables, a.files, key) by {
        assert(order::in_memory(v, key) || levels::settled(v.tables, a.files, key));
        laws::lemma_applied(v.memory, ops, seq_num, now_ms, key);
        if order::in_memory(v, key) && !v.memory.contains_key(key) {
            let i = choose|i: int|
                0 <= i < v.waiting.len() && (#[trigger] v.waiting[i]).contains_key(key);
            assert(w.waiting[i].contains_key(key));
        }
    }
}

proof fn lemma_filling_keeps_the_log(
    a: Moment,
    ops: Seq<OpView>,
    seq_num: u64,
    now_ms: u64,
    b: Moment,
)
    requires
        sound(a),
        applies(a, ops, seq_num, now_ms, b),
    ensures
        restart::logged(filled(a.engine, ops, seq_num, now_ms), a.files, b.log),
{
    let v = a.engine;
    let w = filled(v, ops, seq_num, now_ms);
    let log = a.log;
    let all = b.log;
    lemma_entries_in_log(log, ops, seq_num, now_ms, v.next_seq, 0);
    assert forall|key: u128, e: EntryView| restart::behind(
        log,
        key,
        e,
    ) implies #[trigger] restart::behind(all, key, e) by {
        lemma_entries_in_log(log, ops, seq_num, now_ms, v.next_seq, key);
    }
    assert forall|key: u128| #[trigger] w.memory.contains_key(key) implies restart::behind(
        all,
        key,
        w.memory[key],
    ) by {
        laws::lemma_applied(v.memory, ops, seq_num, now_ms, key);
        lemma_entries_in_log(log, ops, seq_num, now_ms, v.next_seq, key);
        if laws::last_op(ops, key) is None {
            assert(v.memory.contains_key(key));
        }
    }
    assert forall|i: int, key: u128|
        0 <= i < w.waiting.len() && #[trigger] w.waiting[i].contains_key(
            key,
        ) implies restart::behind(all, key, w.waiting[i][key]) by {
        assert(v.waiting[i].contains_key(key));
    }
    assert forall|key: u128| #[trigger]
        restart::stored(w, a.files, key) == Ok::<Option<Seq<u8>>, ErrorView>(
            levels::shown(restart::last_in(all, key)),
        ) by {
        assert(restart::stored(v, a.files, key) == Ok::<Option<Seq<u8>>, ErrorView>(
            levels::shown(restart::last_in(log, key)),
        ));
        laws::lemma_applied(v.memory, ops, seq_num, now_ms, key);
        lemma_entries_in_log(log, ops, seq_num, now_ms, v.next_seq, key);
    }
}

proof fn lemma_applying_is_sound(
    a: Moment,
    ops: Seq<OpView>,
    seq_num: u64,
    now_ms: u64,
    b: Moment,
)
    requires
        sound(a),
        applies(a, ops, seq_num, now_ms, b),
    ensures
        sound(b),
{
    if ops.len() == 0 {
        assert(b.log =~= a.log);
    } else {
        let w = filled(a.engine, ops, seq_num, now_ms);
        lemma_filling_keeps_the_order(a, ops, seq_num, now_ms, b);
        lemma_filling_keeps_the_log(a, ops, seq_num, now_ms, b);
        order::law_rotation_keeps_the_order(w, a.files);
        restart::law_rotation_keeps_the_log(w, a.files, b.log);
    }
}

proof fn lemma_emptying_is_sound(a: Moment, b: Moment)
    requires
        sound(a),
        empties(a, b),
    ensures
        sound(b),
{
    let w = b.engine;
    assert forall|key: u128|
        #![trigger order::in_memory(w, key)]
        #![trigger levels::settled(w.tables, b.files, key)]
        order::in_memory(w, key) || levels::settled(w.tables, b.files, key) by {
        assert(levels::first_in(w.tables, b.files, key) is None);
    }
    assert forall|key: u128| #[trigger] restart::stored(w, b.files, key) == Ok::<
        Option<Seq<u8>>,
        ErrorView,
    >(levels::shown(restart::last_in(b.log, key))) by {
        assert(engine::in_waiting(w.waiting, key) is None);
        assert(engine::in_tables(w.tables, b.files, key, 0) == Ok::<Option<EntryView>, ErrorView>(
            None,
        ));
    }
}

/// Every step keeps an engine in order, and what its log keeps of it.
pub proof fn law_steps_keep_an_engine_sound(a: Moment, b: Moment)
    requires
        sound(a),
        steps(a, b),
    ensures
        sound(b),
{
    let v = a.engine;
    if exists|ops: Seq<OpView>, now_ms: u64| #[trigger] writes(a, ops, now_ms, b) {
        let (ops, now_ms) = choose|ops: Seq<OpView>, now_ms: u64| #[trigger]
            writes(a, ops, now_ms, b);
        order::law_batch_keeps_the_order(v, ops, now_ms, a.files);
        restart::law_batch_is_logged(v, ops, now_ms, a.files, a.log);
    } else if exists|ops: Seq<OpView>, seq_num: u64, now_ms: u64| #[trigger]
        applies(a, ops, seq_num, now_ms, b) {
        let (ops, seq_num, now_ms) = choose|ops: Seq<OpView>, seq_num: u64, now_ms: u64| #[trigger]
            applies(a, ops, seq_num, now_ms, b);
        lemma_applying_is_sound(a, ops, seq_num, now_ms, b);
    } else if rotates(a, b) {
        order::law_rotation_keeps_the_order(v, a.files);
        restart::law_rotation_keeps_the_log(v, a.files, a.log);
    } else if exists|f: FlushOf| #[trigger] flushes(a, f, b) {
        let f = choose|f: FlushOf| #[trigger] flushes(a, f, b);
        order::law_flush_keeps_the_order(
            v,
            f.path,
            f.t,
            f.empty_bloom,
            f.bloom,
            a.files,
            b.files,
        );
        restart::law_flush_keeps_the_log(
            v,
            f.path,
            f.t,
            f.empty_bloom,
            f.bloom,
            a.files,
            b.files,
            a.log,
        );
    } else if exists|c: CompactionOf| #[trigger] merges(a, c, b) {
        let c = choose|c: CompactionOf| #[trigger] merges(a, c, b);
        order::law_compaction_keeps_the_engine(
            v,
            a.files,
            c.l0_trigger,
            c.s,
            c.empty_bloom,
            c.bloom,
            b.files,
            c.t,
        );
        restart::law_compaction_keeps_the_log(
            v,
            a.files,
            c.l0_trigger,
            c.s,
            c.empty_bloom,
            c.bloom,
            b.files,
            c.t,
            a.log,
        );
    } else if exists|listing: Seq<TableFile>| #[trigger] reopens(a, listing, b) {
        let listing = choose|listing: Seq<TableFile>| #[trigger] reopens(a, listing, b);
        restart::law_reopened_engine_is_in_order(v, a.files, a.log, listing, b.engine, 0);
    } else if settles(a, b) {
        lemma_settling_is_sound(a, b);
    } else {
        lemma_emptying_is_sound(a, b);
    }
}

/// Files with one more.
pub open spec fn with_file(
    files: spec_fn(u64) -> FileView,
    number: u64,
    image: Seq<u8>,
) -> spec_fn(u64) -> FileView {
    |id: u64|
        if id == number {
            sstable::file_of(image)
        } else {
            files(id)
        }
}

/// What the fields of a table's file can hold: its lengths fit, whatever the filter finds.
pub open spec fn fits_fields(entries: Seq<(u128, EntryView)>, empty_bloom: BloomView) -> bool {
    forall|bloom: BloomView| #[trigger]
        sstable::all_inserted(empty_bloom, entries, bloom) ==> sstable::lengths_fit(
            entries,
            sstable::DEFAULT_BLOCK_SIZE as nat,
            bloom,
        )
}

/// A flush that ended well is a step: the file that was handed to be stored is then the newest table's.
pub proof fn law_flush_is_a_step<S: FnOnce(&str, &Bytes) -> Result<()>>(
    a: Moment,
    dir: Seq<char>,
    empty_bloom: BloomView,
    store: S,
    after: EngineView,
)
    requires
        sound(a),
        a.engine.waiting.len() > 0,
        a.engine.waiting[0].len() > 0,
        a.engine.next_sst_id < u64::MAX,
        empty_bloom.bytes.len() > 0,
        fits_fields(memtable::sorted_range(a.engine.waiting[0], None, None), empty_bloom),
        forall|i: int|
            0 <= i < a.engine.tables.len() ==> (#[trigger] a.engine.tables[i]).path
                != engine::table_path(dir, a.engine.next_sst_id),
        engine::flushed(a.engine, dir, empty_bloom, store, after, Ok(())),
    ensures
        exists|image: Seq<u8>| #[trigger]
            engine::stores(
                store,
                engine::table_path(dir, a.engine.next_sst_id),
                image,
                Ok(()),
            ) && steps(
                a,
                Moment {
                    engine: after,
                    files: with_file(a.files, a.engine.next_sst_id, image),
                    ..a
                },
            ),
{
    let v = a.engine;
    let id = v.next_sst_id;
    let path = engine::table_path(dir, id);
    let entries = memtable::sorted_range(v.waiting[0], None, None);
    let rest = EngineView { waiting: v.waiting.skip(1), ..v };
    let numbered = EngineView { next_sst_id: id.wrapping_add(1), ..rest };
    let grown = |t: TableView| EngineView { tables: seq![t] + numbered.tables, ..numbered };
    assert(engine::new_table(
        numbered,
        path,
        id,
        0,
        entries,
        empty_bloom,
        store,
        after,
        Ok(()),
        grown,
    ));
    let bloom = choose|bloom: BloomView| #[trigger]
        sstable::all_inserted(empty_bloom, entries, bloom) && ({
            let image = sstable::file_bytes(entries, sstable::DEFAULT_BLOCK_SIZE as nat, bloom);
            match sstable::opened_image(path, image, id, 0) {
                Err(e) => false,
                Ok(t) => engine::stores(store, path, image, Ok(())) && after == grown(t),
            }
        });
    let image = sstable::file_bytes(entries, sstable::DEFAULT_BLOCK_SIZE as nat, bloom);
    let t = sstable::opened_image(path, image, id, 0)->Ok_0;
    let f = FlushOf { path, t, empty_bloom, bloom };
    let b = Moment { engine: after, files: with_file(a.files, id, image), ..a };
    assert(flushes(a, f, b));
}

/// A compaction that ended well and replaced tables is a step: the file that was handed to be stored is
/// then the new table's.
pub proof fn law_compaction_is_a_step<S: FnOnce(&str, &Bytes) -> Result<()>>(
    a: Moment,
    dir: Seq<char>,
    l0_trigger: nat,
    empty_bloom: BloomView,
    can: Reads,
    store: S,
    after: EngineView,
    gone: Vec<String>,
)
    requires
        sound(a),
        sstable::within(can, sstable::fixed(a.files)),
        a.engine.next_sst_id < u64::MAX,
        empty_bloom.bytes.len() > 0,
        compaction::plan_for(a.engine.tables, l0_trigger) matches Some(plan)
            && compaction::compacted(
            a.engine.tables,
            a.files,
            plan.inputs,
            plan.is_bottom_level,
        ) matches Ok(s) && fits_fields(s, empty_bloom),
        forall|i: int|
            0 <= i < a.engine.tables.len() ==> (#[trigger] a.engine.tables[i]).path
                != engine::table_path(dir, a.engine.next_sst_id),
        gone@.len() > 0,
        engine::compacts(a.engine, dir, l0_trigger, empty_bloom, can, store, after, Ok(gone)),
    ensures
        exists|image: Seq<u8>| #[trigger]
            engine::stores(
                store,
                engine::table_path(dir, a.engine.next_sst_id),
                image,
                Ok(()),
            ) && steps(
                a,
                Moment {
                    engine: after,
                    files: with_file(a.files, a.engine.next_sst_id, image),
                    ..a
                },
            ),
{
    let v = a.engine;
    let id = v.next_sst_id;
    let path = engine::table_path(dir, id);
    let plan = compaction::plan_for(v.tables, l0_trigger)->Some_0;
    let r: Result<Vec<String>> = Ok(gone);
    let m = choose|m: core::result::Result<Seq<(u128, EntryView)>, ErrorView>| #[trigger]
        compaction::merge_gives(can, v.tables, plan.inputs, plan.is_bottom_level, m)
            && engine::replaces(v, dir, plan, empty_bloom, m, store, after, r);
    compaction::lemma_merge_fixed(can, a.files, v.tables, plan.inputs, plan.is_bottom_level, m);
    let s = m->Ok_0;
    let numbered = EngineView { next_sst_id: id.wrapping_add(1), ..v };
    let grown = |t: TableView| engine::after_merge(v, plan, t);
    assert(engine::ended(r) == Ok::<(), crate::types::DbError>(()));
    assert(engine::new_table(
        numbered,
        path,
        id,
        plan.output_level,
        s,
        empty_bloom,
        store,
        after,
        Ok(()),
        grown,
    ));
    let bloom = choose|bloom: BloomView| #[trigger]
        sstable::all_inserted(empty_bloom, s, bloom) && ({
            let image = sstable::file_bytes(s, sstable::DEFAULT_BLOCK_SIZE as nat, bloom);
            match sstable::opened_image(path, image, id, plan.output_level) {
                Err(e) => false,
                Ok(t) => engine::stores(store, path, image, Ok(())) && after == grown(t),
            }
        });
    let image = sstable::file_bytes(s, sstable::DEFAULT_BLOCK_SIZE as nat, bloom);
    let t = sstable::opened_image(path, image, id, plan.output_level)->Ok_0;
    let c = CompactionOf { l0_trigger, s, empty_bloom, bloom, t };
    let b = Moment { engine: after, files: with_file(a.files, id, image), ..a };
    assert(merges(a, c, b));
}

proof fn lemma_last_in_bound(log: Seq<(u128, EntryView)>, key: u128)
    ensures
        restart::last_in(log, key) matches Some(l) ==> l.seq_num <= wal::max_seq(log),
    decreases log.len(),
{
    if log.len() > 0 {
        lemma_last_in_bound(log.drop_last(), key);
    }
}

/// A write of one key that is numbered at one moment and applied at a later one is a step, as long as no
/// other write of the key was applied between: what other writes do meanwhile does not matter.
pub proof fn law_write_that_took_its_turn_is_a_step(
    begun: Moment,
    a: Moment,
    ops: Seq<OpView>,
    now_ms: u64,
)
    requires
        sound(begun),
        ops.len() == 1,
        begun.engine.next_seq < a.engine.next_seq,
        restart::last_in(a.log, ops[0].key) == restart::last_in(begun.log, ops[0].key),
    ensures
        steps(
            a,
            Moment {
                engine: engine::after_batch(a.engine, ops, begun.engine.next_seq, now_ms),
                log: a.log + restart::batch_entries(ops, begun.engine.next_seq, now_ms),
                ..a
            },
        ),
{
    let seq_num = begun.engine.next_seq;
    let b = Moment {
        engine: engine::after_batch(a.engine, ops, seq_num, now_ms),
        log: a.log + restart::batch_entries(ops, seq_num, now_ms),
        ..a
    };
    assert forall|key: u128| #[trigger] laws::last_op(ops, key) is Some implies (restart::last_in(
        a.log,
        key,
    ) matches Some(l) ==> l.seq_num < seq_num) by {
        reveal_with_fuel(laws::last_op, 2);
        assert(ops.drop_last().len() == 0);
        assert(key == ops[0].key);
        lemma_last_in_bound(begun.log, key);
    }
    assert(applies(a, ops, seq_num, now_ms, b));
}

/// To open an engine again on its log and its table files is a step.
pub proof fn law_opening_again_is_a_step(
    a: Moment,
    can: Reads,
    listing: Seq<TableFile>,
    v: EngineView,
)
    requires
        sstable::within(can, sstable::fixed(a.files)),
        restart::lists(listing, a.files, a.engine.tables),
        v.memory == engine::loaded(a.log),
        v.next_seq == wal::max_seq(a.log) + 1,
        v.waiting.len() == 0,
        engine::taken_in(can, listing, v.tables),
        v.next_sst_id == engine::max_id(listing, listing.len() as int) + 1,
    ensures
        steps(a, Moment { engine: v, ..a }),
{
    engine::lemma_taken_in_fixed(can, a.files, listing, v.tables);
    assert(reopens(a, listing, Moment { engine: v, ..a }));
}

/// After every sequence of writes, rotations, flushes, compactions, restarts and truncations an engine is
/// in order, and its log keeps what it holds.
pub proof fn law_every_moment_is_sound(s: Seq<Moment>, i: int)
    requires
        is_history(s),
        0 <= i < s.len(),
    ensures
        sound(s[i]),
    decreases i,
{
    if i == 0 {
        lemma_start_is_sound(s[0]);
    } else {
        law_every_moment_is_sound(s, i - 1);
        assert(steps(s[i - 1], s[i]));
        law_steps_keep_an_engine_sound(s[i - 1], s[i]);
    }
}

/// After every sequence of steps, a read of a key that has not expired gives what was logged last under
/// it: neither rotations, flushes, compactions nor restarts are seen.
pub proof fn law_reads_give_what_was_logged_last(s: Seq<Moment>, i: int, key: u128, now_secs: u64)
    requires
        is_history(s),
        0 <= i < s.len(),
        !engine::expired(s[i].engine.ttls, key, now_secs),
    ensures
        engine::value_of(s[i].engine, s[i].files, key, now_secs) == Ok::<
            Option<Seq<u8>>,
            ErrorView,
        >(levels::shown(restart::last_in(s[i].log, key))),
{
    law_every_moment_is_sound(s, i);
    let m = s[i];
    assert(restart::stored(m.engine, m.files, key) == Ok::<Option<Seq<u8>>, ErrorView>(
        levels::shown(restart::last_in(m.log, key)),
    ));
}

/// After every sequence of steps, what a read of a key may give is what was logged last under it, as long
/// as reads of files give what the files hold, and the key has not expired.
pub proof fn law_reads_may_give_nothing_else(
    s: Seq<Moment>,
    i: int,
    can: Reads,
    key: u128,
    now_secs: u64,
    got: core::result::Result<Option<Seq<u8>>, ErrorView>,
)
    requires
        is_history(s),
        0 <= i < s.len(),
        sstable::within(can, sstable::fixed(s[i].files)),
        !engine::expired(s[i].engine.ttls, key, now_secs),
        engine::value_gives(can, s[i].engine, key, now_secs, got),
    ensures
        got == Ok::<Option<Seq<u8>>, ErrorView>(
            levels::shown(restart::last_in(s[i].log, key)),
        ),
{
    law_reads_give_what_was_logged_last(s, i, key, now_secs);
    engine::lemma_value_fixed(can, s[i].files, s[i].engine, key, now_secs, got);
}

/// After every sequence of steps, counting the records gives the number of keys that hold a value, as
/// long as reads of files give what the files hold, as far as the machine can count.
pub proof fn law_count_may_give_nothing_else(
    s: Seq<Moment>,
    i: int,
    can: Reads,
    got: core::result::Result<nat, ErrorView>,
)
    requires
        is_history(s),
        0 <= i < s.len(),
        sstable::within(can, sstable::fixed(s[i].files)),
        engine::count_gives(can, s[i].engine, got),
        iterator::scan_sources(
            s[i].engine.memory,
            s[i].engine.waiting,
            s[i].engine.tables,
            s[i].files,
            None,
            None,
        ) matches Ok(src) && iterator::live(iterator::merged(src)).len() <= usize::MAX,
    ensures
        got == Ok::<nat, ErrorView>(order::active(s[i].engine, s[i].files).len()),
{
    law_every_moment_is_sound(s, i);
    order::law_total_counts_active_records(s[i].engine, s[i].files);
    engine::lemma_count_fixed(can, s[i].files, s[i].engine, got);
}

/// Two lists hold the same tables, whatever their paths and levels.
pub open spec fn same_tables(a: Seq<TableView>, b: Seq<TableView>) -> bool {
    &&& a.len() == b.len()
    &&& forall|i: int|
        0 <= i < a.len() ==> #[trigger] a[i] == (TableView {
            path: a[i].path,
            level: a[i].level,
            ..b[i]
        })
}

proof fn lemma_same_tables_find(
    a: Seq<TableView>,
    b: Seq<TableView>,
    files: spec_fn(u64) -> FileView,
    key: u128,
    i: int,
)
    requires
        same_tables(a, b),
        0 <= i <= a.len(),
    ensures
        engine::in_tables(a, files, key, i) == engine::in_tables(b, files, key, i),
    decreases a.len() - i,
{
    if i < a.len() {
        assert(a[i] == (TableView { path: a[i].path, level: a[i].level, ..b[i] }));
        lemma_same_tables_find(a, b, files, key, i + 1);
    }
}

/// When a backup copies the files, they hold every value that is read: an engine that has the same
/// tables in the same order, and neither log nor memory, gives for each key that has not expired what
/// was logged last under it.
pub proof fn law_backup_holds_what_is_read(
    s: Seq<Moment>,
    i: int,
    copy: EngineView,
    key: u128,
    now_secs: u64,
)
    requires
        is_history(s),
        0 <= i < s.len(),
        s[i].engine.memory == Map::<u128, EntryView>::empty(),
        s[i].engine.waiting.len() == 0,
        !engine::expired(s[i].engine.ttls, key, now_secs),
        same_tables(copy.tables, s[i].engine.tables),
        copy.memory == Map::<u128, EntryView>::empty(),
        copy.waiting.len() == 0,
        copy.ttls == Map::<u128, u64>::empty(),
    ensures
        engine::value_of(copy, s[i].files, key, now_secs) == engine::value_of(
            s[i].engine,
            s[i].files,
            key,
            now_secs,
        ),
        engine::value_of(copy, s[i].files, key, now_secs) == Ok::<Option<Seq<u8>>, ErrorView>(
            levels::shown(restart::last_in(s[i].log, key)),
        ),
{
    law_reads_give_what_was_logged_last(s, i, key, now_secs);
    lemma_same_tables_find(copy.tables, s[i].engine.tables, s[i].files, key, 0);
}

/// After every sequence of steps, a scan whose limit is above the number of values gives, in the order
/// of the keys, exactly what reads of the keys within its bounds give.
pub proof fn law_scans_give_what_reads_give(
    s: Seq<Moment>,
    i: int,
    start: Option<PlayerId>,
    end: Option<PlayerId>,
    limit: nat,
    now_secs: u64,
    key: u128,
    value: Seq<u8>,
)
    requires
        is_history(s),
        0 <= i < s.len(),
        iterator::scan_sources(
            s[i].engine.memory,
            s[i].engine.waiting,
            s[i].engine.tables,
            s[i].files,
            start,
            end,
        ) matches Ok(src) && iterator::live(iterator::merged(src)).len() <= limit,
    ensures
        engine::scan_of(s[i].engine, s[i].files, start, end, limit, now_secs) matches Ok(given)
            && order::pairs_ascend(given) && (given.contains((key, value)) <==> sstable::in_range(
            key,
            start,
            end,
        ) && engine::value_of(s[i].engine, s[i].files, key, now_secs) == Ok::<
            Option<Seq<u8>>,
            ErrorView,
        >(Some(value))),
{
    law_every_moment_is_sound(s, i);
    order::law_scan_gives_what_reads_give(
        s[i].engine,
        s[i].files,
        start,
        end,
        limit,
        now_secs,
        key,
        value,
    );
}

} // verus!
