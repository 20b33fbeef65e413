//! The storage engine of one table: the memory tables, the tables on disk, and what each operation
//! does to them.
//!
//! Reading files, writing the log and storing new files is left to functions that the caller
//! passes.
use bytes::Bytes;
use std::collections::HashMap;
use vstd::prelude::*;

use crate::storage::bloom_filter::{BloomFilter, BloomView};
use crate::storage::compaction::{CompactionPlan, Compactor};
use crate::storage::iterator::MergingScanner;
use crate::storage::memtable::MemTable;
use crate::storage::sstable::{
    CompressionType, FileView, Reads, SsTable, SsTableBuilder, TableView,
};
use crate::storage::wal::{RecordView, WalConfig, WalRecord, WalRecovery, WalWriter};
use crate::storage::{compaction, iterator, memtable, sstable, wal};
use crate::text;
use crate::types::{DbError, EntryView, ErrorView, OpType, PlayerId, Result, ValueEntry};
use crate::types;
use crate::wire;

verus! {

broadcast use vstd::std_specs::hash::group_hash_axioms;

// ---------------------------------------------------------------------------------------------
// Configuration and file names
// ---------------------------------------------------------------------------------------------
/// How a table is kept.
#[derive(Debug, PartialEq, Eq)]
pub struct EngineConfig {
    pub db_path: String,
    pub memtable_max_bytes: usize,
    pub l0_compaction_trigger: usize,
    pub wal_config: WalConfig,
}

/// How a table is kept, by views.
pub struct EngineConfigView {
    pub db_path: Seq<char>,
    pub memtable_max_bytes: usize,
    pub l0_compaction_trigger: usize,
    pub wal_config: WalConfig,
}

impl View for EngineConfig {
    type V = EngineConfigView;

    open spec fn view(&self) -> EngineConfigView {
        EngineConfigView {
            db_path: self.db_path@,
            memtable_max_bytes: self.memtable_max_bytes,
            l0_compaction_trigger: self.l0_compaction_trigger,
            wal_config: self.wal_config,
        }
    }
}

impl Default for EngineConfig {
    fn default() -> (r: Self)
        ensures
            r.db_path@ == "./data"@,
            r.memtable_max_bytes == 268435456,
            r.l0_compaction_trigger == 4,
            r.wal_config.commit_delay_us == 1000,
            !r.wal_config.async_fsync,
    {
        EngineConfig {
            db_path: "./data".to_owned(),
            memtable_max_bytes: 268435456,
            l0_compaction_trigger: 4,
            wal_config: WalConfig::default(),
        }
    }
}

/// Zeros before some digits, so that there are at least six.
pub open spec fn padded(digits: Seq<char>) -> Seq<char>
    decreases 6 - digits.len(),
{
    if digits.len() >= 6 {
        digits
    } else {
        padded(seq!['0'] + digits)
    }
}

/// A file in a directory.
pub open spec fn joined(dir: Seq<char>, name: Seq<char>) -> Seq<char> {
    if dir.len() == 0 || dir.last() == '/' {
        dir + name
    } else {
        dir + "/"@ + name
    }
}

/// The file of a table.
pub open spec fn table_path(dir: Seq<char>, id: u64) -> Seq<char> {
    joined(dir, padded(text::dec_text(id as nat)) + ".sst"@)
}

/// The last place of a character.
pub open spec fn last_place(s: Seq<char>, c: char) -> Option<int>
    decreases s.len(),
{
    if s.len() == 0 {
        None
    } else if s.last() == c {
        Some(s.len() - 1)
    } else {
        last_place(s.drop_last(), c)
    }
}

/// A file of this name is a table's: what follows its last dot, which is not its first character,
/// is `sst`.
pub open spec fn names_table(name: Seq<char>) -> bool {
    last_place(name, '.') matches Some(at) && at > 0 && name.skip(at + 1) == "sst"@
}

/// The number of the table whose file has this name.
pub open spec fn id_of_name(name: Seq<char>) -> Option<nat> {
    match last_place(name, '.') {
        Some(at) if names_table(name) => text::parsed_number(name.take(at), u64::MAX as nat),
        _ => None,
    }
}

fn pad_digits(id: u64) -> (r: String)
    ensures
        r@ == padded(text::dec_text(id as nat)),
{
    let mut digits = text::to_dec(id);
    let chars = text::chars_of(digits.as_str());
    let mut n: usize = chars.len();
    while n < 6
        invariant
            digits@.len() == n,
            padded(digits@) == padded(text::dec_text(id as nat)),
        decreases 6 - n,
    {
        let mut longer = "0".to_owned();
        proof {
            reveal_strlit("0");
            assert("0"@ =~= seq!['0']);
        }
        text::push_text(&mut longer, digits.as_str());
        digits = longer;
        n = n + 1;
    }
    digits
}

/// A file in a directory.
pub fn join_path(dir: &str, name: &str) -> (r: String)
    ensures
        r@ == joined(dir@, name@),
{
    let chars = text::chars_of(dir);
    let n: usize = chars.len();
    let mut out = dir.to_owned();
    if n > 0 && chars[n - 1] != '/' {
        text::push_text(&mut out, "/");
    }
    text::push_text(&mut out, name);
    out
}

/// The file of a table.
pub fn table_file(dir: &str, id: u64) -> (r: String)
    ensures
        r@ == table_path(dir@, id),
{
    let mut name = pad_digits(id);
    text::push_text(&mut name, ".sst");
    join_path(dir, name.as_str())
}

fn find_last_dot(s: &Vec<char>) -> (r: Option<usize>)
    ensures
        match r {
            Some(at) => last_place(s@, '.') == Some(at as int) && at < s@.len(),
            None => last_place(s@, '.') is None,
        },
{
    let mut i: usize = s.len();
    assert(s@.take(i as int) =~= s@);
    while i > 0
        invariant
            i <= s@.len(),
            last_place(s@, '.') == last_place(s@.take(i as int), '.'),
        decreases i,
    {
        assert(s@.take(i as int).drop_last() =~= s@.take(i - 1));
        if s[i - 1] == '.' {
            return Some(i - 1);
        }
        i = i - 1;
    }
    None
}

/// Whether a file of this name is a table's.
pub fn is_table_file(name: &str) -> (r: bool)
    ensures
        r == names_table(name@),
{
    let chars = text::chars_of(name);
    let n: usize = chars.len();
    match find_last_dot(&chars) {
        Some(at) => {
            let ext = text::string_of(&chars[at + 1..n]);
            assert(chars@.subrange(at + 1, chars@.len() as int) =~= chars@.skip(at + 1));
            at > 0 && text::text_eq(ext.as_str(), "sst")
        },
        None => false,
    }
}

/// The number of the table whose file has this name.
pub fn table_id(name: &str) -> (r: Option<u64>)
    ensures
        match r {
            Some(id) => id_of_name(name@) == Some(id as nat),
            None => id_of_name(name@) is None,
        },
{
    if !is_table_file(name) {
        return None;
    }
    let chars = text::chars_of(name);
    match find_last_dot(&chars) {
        Some(at) => {
            assert(chars@.subrange(0, at as int) =~= chars@.take(at as int));
            text::parse_u64(&chars[0..at])
        },
        None => None,
    }
}

// ---------------------------------------------------------------------------------------------
// What an engine holds
// ---------------------------------------------------------------------------------------------
/// An engine: the active memory table and the estimate of its size, the memory tables that wait
/// to be flushed, the oldest first, the tables on disk, the newest first, the times at which keys
/// expire, and the numbers that are given next.
pub struct EngineView {
    pub memory: Map<u128, EntryView>,
    pub memory_size: usize,
    pub waiting: Seq<Map<u128, EntryView>>,
    pub tables: Seq<TableView>,
    pub ttls: Map<u128, u64>,
    pub next_sst_id: u64,
    pub next_seq: u64,
    pub limit: usize,
}

/// The newest entry under a key in the memory tables that wait.
pub open spec fn in_waiting(waiting: Seq<Map<u128, EntryView>>, key: u128) -> Option<EntryView>
    decreases waiting.len(),
{
    if waiting.len() == 0 {
        None
    } else if waiting.last().contains_key(key) {
        Some(waiting.last()[key])
    } else {
        in_waiting(waiting.drop_last(), key)
    }
}

/// The entry under a key in the first of the tables, from the `i`-th on, that has one.
pub open spec fn in_tables(
    tables: Seq<TableView>,
    files: spec_fn(u64) -> FileView,
    key: u128,
    i: int,
) -> core::result::Result<Option<EntryView>, ErrorView>
    decreases tables.len() - i,
{
    if i < 0 || i >= tables.len() {
        Ok(None)
    } else {
        match sstable::table_find(tables[i], files(tables[i].id), key) {
            Err(e) => Err(e),
            Ok(Some(e)) => Ok(Some(e)),
            Ok(None) => in_tables(tables, files, key, i + 1),
        }
    }
}

/// The newest entry under a key.
pub open spec fn newest_entry(
    v: EngineView,
    files: spec_fn(u64) -> FileView,
    key: u128,
) -> core::result::Result<Option<EntryView>, ErrorView> {
    if v.memory.contains_key(key) {
        Ok(Some(v.memory[key]))
    } else {
        match in_waiting(v.waiting, key) {
            Some(e) => Ok(Some(e)),
            None => in_tables(v.tables, files, key, 0),
        }
    }
}

/// The key has expired.
pub open spec fn expired(ttls: Map<u128, u64>, key: u128, now_secs: u64) -> bool {
    ttls.contains_key(key) && now_secs >= ttls[key]
}

/// What a read of a key gives.
pub open spec fn value_of(
    v: EngineView,
    files: spec_fn(u64) -> FileView,
    key: u128,
    now_secs: u64,
) -> core::result::Result<Option<Seq<u8>>, ErrorView> {
    if expired(v.ttls, key, now_secs) {
        Ok(None)
    } else {
        match newest_entry(v, files, key) {
            Err(e) => Err(e),
            Ok(None) => Ok(None),
            Ok(Some(e)) => Ok(e.value),
        }
    }
}

/// A key is known to hold a value.
pub open spec fn holds_value(
    v: EngineView,
    files: spec_fn(u64) -> FileView,
    key: u128,
    now_secs: u64,
) -> bool {
    value_of(v, files, key, now_secs) matches Ok(Some(_))
}

/// The pairs whose keys have not expired.
pub open spec fn unexpired(
    s: Seq<(u128, Seq<u8>)>,
    ttls: Map<u128, u64>,
    now_secs: u64,
) -> Seq<(u128, Seq<u8>)>
    decreases s.len(),
{
    if s.len() == 0 {
        Seq::empty()
    } else if expired(ttls, s.last().0, now_secs) {
        unexpired(s.drop_last(), ttls, now_secs)
    } else {
        unexpired(s.drop_last(), ttls, now_secs).push(s.last())
    }
}

/// What a scan of an engine gives.
pub open spec fn scan_of(
    v: EngineView,
    files: spec_fn(u64) -> FileView,
    start: Option<PlayerId>,
    end: Option<PlayerId>,
    limit: nat,
    now_secs: u64,
) -> core::result::Result<Seq<(u128, Seq<u8>)>, ErrorView> {
    match iterator::scanned(v.memory, v.waiting, v.tables, files, start, end, limit) {
        Err(e) => Err(e),
        Ok(s) => Ok(unexpired(s, v.ttls, now_secs)),
    }
}

/// The tables may have been searched for a key up to the `j`-th, which gave the result: those before it
/// gave none. After the last one, there is no entry.
pub open spec fn found_at(
    can: Reads,
    tables: Seq<TableView>,
    key: u128,
    j: int,
    r: core::result::Result<Option<EntryView>, ErrorView>,
) -> bool {
    &&& 0 <= j <= tables.len()
    &&& forall|k: int|
        0 <= k < j ==> sstable::find_gives(can, #[trigger] tables[k], key, Ok(None))
    &&& if j == tables.len() {
        r == Ok::<Option<EntryView>, ErrorView>(None)
    } else {
        r != Ok::<Option<EntryView>, ErrorView>(None) && sstable::find_gives(
            can,
            tables[j],
            key,
            r,
        )
    }
}

/// What a search for the newest entry under a key may give: memory comes first, then what waits, then
/// the tables.
pub open spec fn entry_gives(
    can: Reads,
    v: EngineView,
    key: u128,
    r: core::result::Result<Option<EntryView>, ErrorView>,
) -> bool {
    if v.memory.contains_key(key) {
        r == Ok::<Option<EntryView>, ErrorView>(Some(v.memory[key]))
    } else {
        match in_waiting(v.waiting, key) {
            Some(e) => r == Ok::<Option<EntryView>, ErrorView>(Some(e)),
            None => exists|j: int| #[trigger] found_at(can, v.tables, key, j, r),
        }
    }
}

/// The value of what was found.
pub open spec fn value_in(
    found: core::result::Result<Option<EntryView>, ErrorView>,
) -> core::result::Result<Option<Seq<u8>>, ErrorView> {
    match found {
        Err(e) => Err(e),
        Ok(None) => Ok(None),
        Ok(Some(e)) => Ok(e.value),
    }
}

/// What a read of a key may give.
pub open spec fn value_gives(
    can: Reads,
    v: EngineView,
    key: u128,
    now_secs: u64,
    r: core::result::Result<Option<Seq<u8>>, ErrorView>,
) -> bool {
    if expired(v.ttls, key, now_secs) {
        r == Ok::<Option<Seq<u8>>, ErrorView>(None)
    } else {
        exists|found: core::result::Result<Option<EntryView>, ErrorView>| #[trigger]
            entry_gives(can, v, key, found) && r == value_in(found)
    }
}

/// A read gave a value.
pub open spec fn is_there(got: core::result::Result<Option<Seq<u8>>, ErrorView>) -> bool {
    got matches Ok(Some(_))
}

/// What asking whether a key is known to hold a value may give.
pub open spec fn holds_gives(can: Reads, v: EngineView, key: u128, now_secs: u64, r: bool) -> bool {
    exists|got: core::result::Result<Option<Seq<u8>>, ErrorView>| #[trigger]
        value_gives(can, v, key, now_secs, got) && r == is_there(got)
}

/// The seconds until a key expires: -2 where it holds no value, -1 where it does not expire.
pub open spec fn time_left(ttls: Map<u128, u64>, key: u128, now_secs: u64, there: bool) -> int {
    if !there {
        -2
    } else if !ttls.contains_key(key) {
        -1
    } else {
        (((ttls[key] - now_secs) as u64) as i64) as int
    }
}

/// The pairs of a scan whose keys have not expired.
pub open spec fn unexpired_of(
    got: core::result::Result<Seq<(u128, Seq<u8>)>, ErrorView>,
    ttls: Map<u128, u64>,
    now_secs: u64,
) -> core::result::Result<Seq<(u128, Seq<u8>)>, ErrorView> {
    match got {
        Err(e) => Err(e),
        Ok(s) => Ok(unexpired(s, ttls, now_secs)),
    }
}

/// What a scan of an engine may give.
pub open spec fn scan_gives(
    can: Reads,
    v: EngineView,
    start: Option<PlayerId>,
    end: Option<PlayerId>,
    limit: nat,
    now_secs: u64,
    r: core::result::Result<Seq<(u128, Seq<u8>)>, ErrorView>,
) -> bool {
    exists|got: core::result::Result<Seq<(u128, Seq<u8>)>, ErrorView>| #[trigger]
        iterator::scan_gives(can, v.memory, v.waiting, v.tables, start, end, limit, got) && r
            == unexpired_of(got, v.ttls, now_secs)
}

pub proof fn lemma_value_within(
    a: Reads,
    b: Reads,
    v: EngineView,
    key: u128,
    now_secs: u64,
    r: core::result::Result<Option<Seq<u8>>, ErrorView>,
)
    requires
        sstable::within(a, b),
        value_gives(a, v, key, now_secs, r),
    ensures
        value_gives(b, v, key, now_secs, r),
{
    if !expired(v.ttls, key, now_secs) {
        let found = choose|found: core::result::Result<Option<EntryView>, ErrorView>| #[trigger]
            entry_gives(a, v, key, found) && r == value_in(found);
        if !v.memory.contains_key(key) && in_waiting(v.waiting, key) is None {
            let j = choose|j: int| #[trigger] found_at(a, v.tables, key, j, found);
            assert forall|k: int| 0 <= k < j implies sstable::find_gives(
                b,
                #[trigger] v.tables[k],
                key,
                Ok(None),
            ) by {
                sstable::lemma_find_within(a, b, v.tables[k], key, Ok(None));
            }
            if j < v.tables.len() {
                sstable::lemma_find_within(a, b, v.tables[j], key, found);
            }
            assert(found_at(b, v.tables, key, j, found));
        }
        assert(entry_gives(b, v, key, found));
    }
}

proof fn lemma_found_fixed(
    can: Reads,
    files: spec_fn(u64) -> FileView,
    tables: Seq<TableView>,
    key: u128,
    i: int,
    j: int,
    r: core::result::Result<Option<EntryView>, ErrorView>,
)
    requires
        sstable::within(can, sstable::fixed(files)),
        found_at(can, tables, key, j, r),
        0 <= i <= j,
    ensures
        r == in_tables(tables, files, key, i),
    decreases j - i,
{
    if i < j {
        sstable::lemma_find_fixed(can, files, tables[i], key, Ok(None));
        lemma_found_fixed(can, files, tables, key, i + 1, j, r);
    } else if j < tables.len() {
        sstable::lemma_find_fixed(can, files, tables[j], key, r);
    }
}

/// Where reads are fixed, a read of a key gives one thing.
pub proof fn lemma_value_fixed(
    can: Reads,
    files: spec_fn(u64) -> FileView,
    v: EngineView,
    key: u128,
    now_secs: u64,
    r: core::result::Result<Option<Seq<u8>>, ErrorView>,
)
    requires
        sstable::within(can, sstable::fixed(files)),
        value_gives(can, v, key, now_secs, r),
    ensures
        r == value_of(v, files, key, now_secs),
{
    if !expired(v.ttls, key, now_secs) {
        let found = choose|found: core::result::Result<Option<EntryView>, ErrorView>| #[trigger]
            entry_gives(can, v, key, found) && r == value_in(found);
        if !v.memory.contains_key(key) && in_waiting(v.waiting, key) is None {
            let j = choose|j: int| #[trigger] found_at(can, v.tables, key, j, found);
            lemma_found_fixed(can, files, v.tables, key, 0, j, found);
        }
    }
}

pub proof fn lemma_scan_within(
    a: Reads,
    b: Reads,
    v: EngineView,
    start: Option<PlayerId>,
    end: Option<PlayerId>,
    limit: nat,
    now_secs: u64,
    r: core::result::Result<Seq<(u128, Seq<u8>)>, ErrorView>,
)
    requires
        sstable::within(a, b),
        scan_gives(a, v, start, end, limit, now_secs, r),
    ensures
        scan_gives(b, v, start, end, limit, now_secs, r),
{
    let got = choose|got: core::result::Result<Seq<(u128, Seq<u8>)>, ErrorView>| #[trigger]
        iterator::scan_gives(a, v.memory, v.waiting, v.tables, start, end, limit, got) && r
            == unexpired_of(got, v.ttls, now_secs);
    iterator::lemma_scan_within(a, b, v.memory, v.waiting, v.tables, start, end, limit, got);
}

/// Where reads are fixed, a scan of an engine gives one thing.
pub proof fn lemma_scan_fixed(
    can: Reads,
    files: spec_fn(u64) -> FileView,
    v: EngineView,
    start: Option<PlayerId>,
    end: Option<PlayerId>,
    limit: nat,
    now_secs: u64,
    r: core::result::Result<Seq<(u128, Seq<u8>)>, ErrorView>,
)
    requires
        sstable::within(can, sstable::fixed(files)),
        scan_gives(can, v, start, end, limit, now_secs, r),
    ensures
        r == scan_of(v, files, start, end, limit, now_secs),
{
    let got = choose|got: core::result::Result<Seq<(u128, Seq<u8>)>, ErrorView>| #[trigger]
        iterator::scan_gives(can, v.memory, v.waiting, v.tables, start, end, limit, got) && r
            == unexpired_of(got, v.ttls, now_secs);
    iterator::lemma_scan_fixed(
        can,
        files,
        v.memory,
        v.waiting,
        v.tables,
        start,
        end,
        limit,
        got,
    );
}

/// An operation: a key, a value, what is done.
pub struct OpView {
    pub key: u128,
    pub value: Option<Seq<u8>>,
    pub op: OpType,
}

/// The operations of a batch, by views.
pub open spec fn ops_view(s: Seq<(PlayerId, Option<Bytes>, OpType)>) -> Seq<OpView> {
    s.map_values(
        |o: (PlayerId, Option<Bytes>, OpType)|
            OpView { key: o.0.0, value: types::value_view(o.1), op: o.2 },
    )
}

/// The entry that an operation leaves.
pub open spec fn op_entry(o: OpView, seq_num: u64, timestamp: u64) -> EntryView {
    let value = match o.op {
        OpType::Put => Some(wal::value_bytes(o.value)),
        OpType::Delete => None,
    };
    EntryView { value, seq_num, timestamp }
}

/// A memory table after some operations, all with one sequence number.
pub open spec fn applied(
    m: Map<u128, EntryView>,
    ops: Seq<OpView>,
    seq_num: u64,
    timestamp: u64,
) -> Map<u128, EntryView>
    decreases ops.len(),
{
    if ops.len() == 0 {
        m
    } else {
        applied(m, ops.drop_last(), seq_num, timestamp).insert(
            ops.last().key,
            op_entry(ops.last(), seq_num, timestamp),
        )
    }
}

/// The estimate of a memory table's size after some operations; it wraps around.
pub open spec fn applied_size(size: usize, ops: Seq<OpView>) -> usize
    decreases ops.len(),
{
    if ops.len() == 0 {
        size
    } else {
        ((applied_size(size, ops.drop_last()) + memtable::ENTRY_OVERHEAD + memtable::value_len(
            op_entry(ops.last(), 0, 0),
        )) % (usize::MAX + 1)) as usize
    }
}

/// The active memory table, unless it is empty, joins those that wait.
pub open spec fn rotated(v: EngineView) -> EngineView {
    if v.memory.len() == 0 {
        v
    } else {
        EngineView {
            memory: Map::empty(),
            memory_size: 0,
            waiting: v.waiting.push(v.memory),
            ..v
        }
    }
}

/// An engine after a batch that is in the log: the operations are applied, and a memory table that
/// has reached the limit is rotated.
pub open spec fn after_batch(
    v: EngineView,
    ops: Seq<OpView>,
    seq_num: u64,
    timestamp: u64,
) -> EngineView {
    if ops.len() == 0 {
        v
    } else {
        let w = EngineView {
            memory: applied(v.memory, ops, seq_num, timestamp),
            memory_size: applied_size(v.memory_size, ops),
            ..v
        };
        if w.memory_size >= v.limit {
            rotated(w)
        } else {
            w
        }
    }
}

/// The records of a batch.
pub open spec fn batch_records(ops: Seq<OpView>, first_seq: u64, timestamp: u64) -> Seq<RecordView> {
    Seq::new(
        ops.len(),
        |i: int|
            RecordView {
                seq_num: wal::seq_after(first_seq, i),
                timestamp,
                op_type: ops[i].op,
                key: ops[i].key,
                value: ops[i].value,
            },
    )
}

/// The records of a batch were handed to the log, and the batch ended as that did.
pub open spec fn logs_batch<W: FnOnce(&Vec<WalRecord>) -> Result<()>>(
    before: EngineView,
    ops: Seq<OpView>,
    now_ms: u64,
    write: W,
    after: EngineView,
    r: Result<()>,
) -> bool {
    exists|records: &Vec<WalRecord>, logged: Result<()>| #[trigger]
        call_ensures(write, (records,), logged) && wal::records_view(records@) == batch_records(
            ops,
            before.next_seq,
            now_ms,
        ) && batch_outcome(before, ops, now_ms, logged, after, r)
}

/// What a batch leaves, given how writing its records to the log ended.
pub open spec fn batch_outcome(
    before: EngineView,
    ops: Seq<OpView>,
    now_ms: u64,
    logged: Result<()>,
    after: EngineView,
    r: Result<()>,
) -> bool {
    let numbered = EngineView {
        next_seq: wal::seq_after(before.next_seq, ops.len() as int),
        ..before
    };
    match logged {
        Ok(_) => r is Ok && after == after_batch(numbered, ops, before.next_seq, now_ms),
        Err(e) => r == Err::<(), DbError>(e) && after == numbered,
    }
}

/// The order of tables: by level, and within a level the newest first.
pub open spec fn not_after(a: TableView, b: TableView) -> bool {
    a.level < b.level || a.level == b.level && a.id >= b.id
}

/// A table put into its place; after those of the same level and number.
pub open spec fn placed(s: Seq<TableView>, t: TableView) -> Seq<TableView>
    decreases s.len(),
{
    if s.len() == 0 || not_after(s.last(), t) {
        s.push(t)
    } else {
        placed(s.drop_last(), t).push(s.last())
    }
}

/// Tables in order.
pub open spec fn sorted_tables(s: Seq<TableView>) -> Seq<TableView>
    decreases s.len(),
{
    if s.len() == 0 {
        s
    } else {
        placed(sorted_tables(s.drop_last()), s.last())
    }
}

// ---------------------------------------------------------------------------------------------
// Opening
// ---------------------------------------------------------------------------------------------
/// A table's file as a directory lists it.
#[derive(Debug)]
pub struct TableFile {
    pub path: String,
    pub id: u64,
    pub len: u64,
}

/// The tables among the first `n` files that can be opened.
pub open spec fn opened_tables(
    listing: Seq<TableFile>,
    files: spec_fn(u64) -> FileView,
    n: int,
) -> Seq<TableView>
    decreases n,
{
    if n <= 0 {
        Seq::empty()
    } else {
        let f = listing[n - 1];
        match sstable::opened(f.path@, files(f.id), f.len as int, f.id, 0) {
            Ok(t) => opened_tables(listing, files, n - 1).push(t),
            Err(_) => opened_tables(listing, files, n - 1),
        }
    }
}

/// The tables among those that opening gave.
pub open spec fn those_opened(
    got: Seq<core::result::Result<TableView, ErrorView>>,
) -> Seq<TableView>
    decreases got.len(),
{
    if got.len() == 0 {
        Seq::empty()
    } else {
        match got.last() {
            Ok(t) => those_opened(got.drop_last()).push(t),
            Err(_) => those_opened(got.drop_last()),
        }
    }
}

/// The first files may have been opened so, one after the other.
pub open spec fn files_opened(
    can: Reads,
    listing: Seq<TableFile>,
    got: Seq<core::result::Result<TableView, ErrorView>>,
) -> bool {
    &&& got.len() <= listing.len()
    &&& forall|k: int|
        0 <= k < got.len() ==> sstable::open_gives(
            can,
            listing[k].path@,
            listing[k].len,
            listing[k].id,
            0,
            #[trigger] got[k],
        )
}

/// What opening the files of a listing may give: the tables that could be opened, in their order.
pub open spec fn taken_in(can: Reads, listing: Seq<TableFile>, tables: Seq<TableView>) -> bool {
    exists|got: Seq<core::result::Result<TableView, ErrorView>>| #[trigger]
        files_opened(can, listing, got) && got.len() == listing.len() && tables == sorted_tables(
            those_opened(got),
        )
}

proof fn lemma_opened_fixed(
    can: Reads,
    files: spec_fn(u64) -> FileView,
    listing: Seq<TableFile>,
    got: Seq<core::result::Result<TableView, ErrorView>>,
)
    requires
        sstable::within(can, sstable::fixed(files)),
        files_opened(can, listing, got),
    ensures
        those_opened(got) == opened_tables(listing, files, got.len() as int),
    decreases got.len(),
{
    if got.len() > 0 {
        let head = got.drop_last();
        let last = got.len() - 1;
        assert forall|k: int| 0 <= k < head.len() implies sstable::open_gives(
            can,
            listing[k].path@,
            listing[k].len,
            listing[k].id,
            0,
            #[trigger] head[k],
        ) by {
            assert(head[k] == got[k]);
        }
        lemma_opened_fixed(can, files, listing, head);
        let f = listing[last];
        assert(got.last() == got[last]);
        assert forall|offset: u64, n: u64, b: core::result::Result<Seq<u8>, ErrorView>|
            #[trigger] sstable::may_read(can, f.id, offset, n, b) implies b == sstable::read_at(
            files(f.id),
            offset as int,
            n as int,
        ) by {
            assert(sstable::may_read(sstable::fixed(files), f.id, offset, n, b));
        }
        sstable::lemma_open_fixed(can, files(f.id), f.path@, f.len, f.id, 0, got[last]);
    }
}

/// Where reads are fixed, opening the files of a listing gives one thing.
pub proof fn lemma_taken_in_fixed(
    can: Reads,
    files: spec_fn(u64) -> FileView,
    listing: Seq<TableFile>,
    tables: Seq<TableView>,
)
    requires
        sstable::within(can, sstable::fixed(files)),
        taken_in(can, listing, tables),
    ensures
        tables == sorted_tables(opened_tables(listing, files, listing.len() as int)),
{
    let got = choose|got: Seq<core::result::Result<TableView, ErrorView>>| #[trigger]
        files_opened(can, listing, got) && got.len() == listing.len() && tables == sorted_tables(
            those_opened(got),
        );
    lemma_opened_fixed(can, files, listing, got);
}

/// The highest number of the first `n` files; 0 of none.
pub open spec fn max_id(listing: Seq<TableFile>, n: int) -> u64
    decreases n,
{
    if n <= 0 {
        0
    } else {
        let rest = max_id(listing, n - 1);
        if listing[n - 1].id > rest {
            listing[n - 1].id
        } else {
            rest
        }
    }
}

/// The memory table that entries of a log leave.
pub open spec fn loaded(s: Seq<(u128, EntryView)>) -> Map<u128, EntryView>
    decreases s.len(),
{
    if s.len() == 0 {
        Map::empty()
    } else {
        loaded(s.drop_last()).insert(s.last().0, s.last().1)
    }
}

/// The estimate of the size of the memory table that entries of a log leave; it wraps around.
pub open spec fn loaded_size(s: Seq<(u128, EntryView)>) -> usize
    decreases s.len(),
{
    if s.len() == 0 {
        0
    } else {
        ((loaded_size(s.drop_last()) + memtable::ENTRY_OVERHEAD + memtable::value_len(s.last().1))
            % (usize::MAX + 1)) as usize
    }
}

/// The entries of a log and the number to go on with.
pub open spec fn log_contents(log: Option<Seq<u8>>) -> core::result::Result<
    (Seq<(u128, EntryView)>, u64),
    ErrorView,
> {
    match log {
        None => Ok((Seq::empty(), 1)),
        Some(data) => match wal::recovered(data) {
            Ok(s) => Ok((s, ((wal::max_seq(s) + 1) % 0x1_0000_0000_0000_0000) as u64)),
            Err(e) => Err(e),
        },
    }
}

/// Puts a table into its place.
fn place_table(tables: Vec<SsTable>, t: SsTable) -> (r: Vec<SsTable>)
    requires
        forall|i: int| 0 <= i < tables@.len() ==> (#[trigger] tables@[i]).wf(),
        t.wf(),
    ensures
        iterator::tables_view(r@) == placed(iterator::tables_view(tables@), t@),
        forall|i: int| 0 <= i < r@.len() ==> (#[trigger] r@[i]).wf(),
{
    let mut out = tables;
    let ghost view = iterator::tables_view(out@);
    let ghost item = t@;
    let mut i: usize = out.len();
    let level: u32 = t.level();
    let id: u64 = t.id();
    assert(view.take(i as int) =~= view);
    assert(placed(view, item) =~= placed(view.take(i as int), item) + view.skip(i as int));
    while i > 0 && !(out[i - 1].level() < level || (out[i - 1].level() == level && out[i - 1].id()
        >= id))
        invariant
            i <= out@.len(),
            view == iterator::tables_view(out@),
            level == item.level,
            id == item.id,
            placed(view, item) == placed(view.take(i as int), item) + view.skip(i as int),
        decreases i,
    {
        proof {
            let p = view.take(i as int);
            assert(p.last() == view[i - 1]);
            assert(p.drop_last() =~= view.take(i - 1));
            assert(placed(view.take(i - 1), item).push(view[i - 1]) + view.skip(i as int)
                =~= placed(view.take(i - 1), item) + view.skip(i - 1));
        }
        i = i - 1;
    }
    let ghost held = out@;
    proof {
        let p = view.take(i as int);
        if i > 0 {
            assert(p.last() == view[i - 1]);
        }
        assert(placed(p, item) == p.push(item));
        assert(p.push(item) + view.skip(i as int) =~= view.insert(i as int, item));
    }
    out.insert(i, t);
    proof {
        assert(iterator::tables_view(out@) =~= view.insert(i as int, item));
        assert forall|j: int| 0 <= j < out@.len() implies (#[trigger] out@[j]).wf() by {
            if j < i {
                assert(out@[j] == held[j]);
            } else if j > i {
                assert(out@[j] == held[j - 1]);
            }
        }
    }
    out
}

/// The storage engine.
pub struct StorageEngine {
    config: EngineConfig,
    wal: WalWriter,
    memtable: MemTable,
    imm_memtables: Vec<MemTable>,
    sstables: Vec<SsTable>,
    next_sst_id: u64,
    ttls: HashMap<u128, u64>,
    memtable_limit_bytes: usize,
    compression_type: CompressionType,
}

impl View for StorageEngine {
    type V = EngineView;

    closed spec fn view(&self) -> EngineView {
        EngineView {
            memory: self.memtable@,
            memory_size: self.memtable.spec_size(),
            waiting: iterator::mems_view(self.imm_memtables@),
            tables: iterator::tables_view(self.sstables@),
            ttls: self.ttls@,
            next_sst_id: self.next_sst_id,
            next_seq: self.wal.spec_next_seq(),
            limit: self.memtable_limit_bytes,
        }
    }
}

impl StorageEngine {
    pub closed spec fn wf(&self) -> bool {
        &&& self.memtable.wf()
        &&& self.wal.spec_config() == self.config.wal_config
        &&& forall|i: int| 0 <= i < self.imm_memtables@.len() ==> (#[trigger] self.imm_memtables@[i]).wf()
        &&& forall|i: int| 0 <= i < self.sstables@.len() ==> (#[trigger] self.sstables@[i]).wf()
    }

    pub closed spec fn spec_config(&self) -> EngineConfig {
        self.config
    }

    pub closed spec fn spec_compression(&self) -> CompressionType {
        self.compression_type
    }

    /// A memory table holds finitely many entries.
    pub proof fn law_memory_is_finite(&self)
        requires
            self.wf(),
        ensures
            self@.memory.dom().finite(),
    {
        self.memtable.lemma_finite();
    }

    /// Opens an engine on the files of its directory and its log. A file that cannot be opened is
    /// passed over; a damaged log is an error.
    pub fn open<R: Fn(u64, u64, u64) -> Result<Vec<u8>>>(
        config: EngineConfig,
        listing: &Vec<TableFile>,
        log: Option<&[u8]>,
        read: &R,
    ) -> (r: Result<Self>)
        requires
            sstable::can_read(*read),
            forall|i: int| 0 <= i < listing@.len() ==> (#[trigger] listing@[i]).id < u64::MAX,
        ensures
            match log_contents(
                match log {
                    Some(data) => Some(data@),
                    None => None,
                },
            ) {
                Err(e) => r matches Err(err) && err@ == e,
                Ok((entries, next_seq)) => r matches Ok(engine) && engine.wf()
                    && engine.spec_config() == config && engine.spec_compression()
                    == CompressionType::Lz4 && engine@.memory == loaded(entries)
                    && engine@.memory_size == loaded_size(entries) && engine@.waiting.len() == 0
                    && engine@.ttls == Map::<u128, u64>::empty() && engine@.next_sst_id == max_id(
                    listing@,
                    listing@.len() as int,
                ) + 1 && engine@.next_seq == next_seq && engine@.limit == config.memtable_max_bytes
                    && taken_in(sstable::outcomes(*read), listing@, engine@.tables),
            },
    {
        let ghost can = sstable::outcomes(*read);
        let ghost mut heard: Seq<core::result::Result<TableView, ErrorView>> = Seq::empty();
        let mut sstables: Vec<SsTable> = Vec::new();
        let mut top: u64 = 0;
        let mut i: usize = 0;
        assert(iterator::tables_view(sstables@) =~= Seq::empty());
        while i < listing.len()
            invariant
                i <= listing@.len(),
                sstable::can_read(*read),
                forall|j: int| 0 <= j < listing@.len() ==> (#[trigger] listing@[j]).id < u64::MAX,
                forall|j: int| 0 <= j < sstables@.len() ==> (#[trigger] sstables@[j]).wf(),
                top == max_id(listing@, i as int),
                top < u64::MAX,
                can == sstable::outcomes(*read),
                heard.len() == i,
                files_opened(can, listing@, heard),
                iterator::tables_view(sstables@) == sorted_tables(those_opened(heard)),
            decreases listing@.len() - i,
        {
            let f = &listing[i];
            if f.id > top {
                top = f.id;
            }
            let got = SsTable::open(f.path.as_str(), f.len, read, f.id, 0);
            let ghost old_heard = heard;
            proof {
                heard = old_heard.push(types::result_view(got));
                assert(heard.drop_last() =~= old_heard);
            }
            if let Ok(t) = got {
                let ghost tv = t@;
                sstables = place_table(sstables, t);
                proof {
                    let before = those_opened(old_heard);
                    assert(before.push(tv).drop_last() =~= before);
                }
            }
            i = i + 1;
        }
        let (entries, next_seq) = match WalRecovery::recover(log) {
            Ok(out) => out,
            Err(e) => return Err(e),
        };
        let ghost ev = types::entries_view(entries@);
        assert(log is None ==> ev =~= Seq::empty());
        let mut memtable = MemTable::new();
        let mut k: usize = 0;
        assert(ev.take(0) =~= Seq::empty());
        while k < entries.len()
            invariant
                k <= entries@.len(),
                ev == types::entries_view(entries@),
                memtable.wf(),
                memtable@ == loaded(ev.take(k as int)),
                memtable.spec_size() == loaded_size(ev.take(k as int)),
            decreases entries@.len() - k,
        {
            assert(ev.take(k + 1).drop_last() =~= ev.take(k as int));
            let key = entries[k].0;
            let entry = entries[k].1.clone();
            memtable.insert(key, entry);
            k = k + 1;
        }
        assert(ev.take(k as int) =~= ev);
        let wal = WalWriter::open(next_seq, config.wal_config);
        let memtable_limit_bytes: usize = config.memtable_max_bytes;
        let waiting: Vec<MemTable> = Vec::new();
        let engine = StorageEngine {
            config,
            wal,
            memtable,
            imm_memtables: waiting,
            sstables,
            next_sst_id: top + 1,
            ttls: HashMap::new(),
            memtable_limit_bytes,
            compression_type: CompressionType::Lz4,
        };
        Ok(engine)
    }
}

// ---------------------------------------------------------------------------------------------
// Reading
// ---------------------------------------------------------------------------------------------
/// A result that may hold a value, by view.
pub open spec fn read_view(r: Result<Option<Bytes>>) -> core::result::Result<
    Option<Seq<u8>>,
    ErrorView,
> {
    match r {
        Ok(v) => Ok(types::value_view(v)),
        Err(e) => Err(e@),
    }
}

impl StorageEngine {
    pub fn is_expired(&self, key: &PlayerId, now_secs: u64) -> (r: bool)
        ensures
            r == expired(self@.ttls, key.0, now_secs),
    {
        match self.ttls.get(&key.0) {
            Some(expires_at) => now_secs >= *expires_at,
            None => false,
        }
    }

    /// The newest entry under a key.
    fn lookup<R: Fn(u64, u64, u64) -> Result<Vec<u8>>>(&self, key: &PlayerId, read: &R) -> (r:
        Result<Option<ValueEntry>>)
        requires
            self.wf(),
            sstable::can_read(*read),
        ensures
            entry_gives(sstable::outcomes(*read), self@, key.0, sstable::found_view(r)),
    {
        let ghost can = sstable::outcomes(*read);
        if let Some(entry) = self.memtable.get(key) {
            return Ok(Some(entry));
        }
        let ghost waiting = iterator::mems_view(self.imm_memtables@);
        let mut i: usize = self.imm_memtables.len();
        assert(waiting.take(i as int) =~= waiting);
        while i > 0
            invariant
                i <= self.imm_memtables@.len(),
                waiting == iterator::mems_view(self.imm_memtables@),
                !self@.memory.contains_key(key.0),
                in_waiting(waiting, key.0) == in_waiting(waiting.take(i as int), key.0),
            decreases i,
        {
            proof {
                assert(waiting.take(i as int).last() == waiting[i - 1]);
                assert(waiting.take(i as int).drop_last() =~= waiting.take(i - 1));
            }
            if let Some(entry) = self.imm_memtables[i - 1].get(key) {
                return Ok(Some(entry));
            }
            i = i - 1;
        }
        let ghost tables = iterator::tables_view(self.sstables@);
        let mut j: usize = 0;
        while j < self.sstables.len()
            invariant
                j <= self.sstables@.len(),
                self.wf(),
                sstable::can_read(*read),
                tables == iterator::tables_view(self.sstables@),
                tables == self@.tables,
                !self@.memory.contains_key(key.0),
                in_waiting(self@.waiting, key.0) is None,
                can == sstable::outcomes(*read),
                forall|k: int|
                    0 <= k < j ==> sstable::find_gives(can, #[trigger] tables[k], key.0, Ok(None)),
            decreases self.sstables@.len() - j,
        {
            let found = self.sstables[j].get(key, read);
            proof {
                assert(tables[j as int] == self.sstables@[j as int]@);
                let heard = sstable::found_view(found);
                if heard != Ok::<Option<EntryView>, ErrorView>(None) {
                    assert(found_at(can, self@.tables, key.0, j as int, heard));
                }
            }
            match found {
                Err(e) => {
                    return Err(e);
                },
                Ok(Some(entry)) => {
                    return Ok(Some(entry));
                },
                Ok(None) => {},
            }
            j = j + 1;
        }
        assert(found_at(can, self@.tables, key.0, j as int, Ok(None)));
        Ok(None)
    }

    /// Whether a key holds a value.
    pub fn key_exists<R: Fn(u64, u64, u64) -> Result<Vec<u8>>>(
        &self,
        key: &PlayerId,
        now_secs: u64,
        read: &R,
    ) -> (r: Result<bool>)
        requires
            self.wf(),
            sstable::can_read(*read),
        ensures
            exists|got: core::result::Result<Option<Seq<u8>>, ErrorView>| #[trigger]
                value_gives(sstable::outcomes(*read), self@, key.0, now_secs, got) && match got {
                    Ok(v) => r == Ok::<bool, DbError>(v is Some),
                    Err(e) => r matches Err(err) && err@ == e,
                },
    {
        let ghost can = sstable::outcomes(*read);
        if self.is_expired(key, now_secs) {
            assert(value_gives(can, self@, key.0, now_secs, Ok(None)));
            return Ok(false);
        }
        let found = self.lookup(key, read);
        let ghost heard = sstable::found_view(found);
        assert(entry_gives(can, self@, key.0, heard));
        assert(value_gives(can, self@, key.0, now_secs, value_in(heard)));
        match found {
            Ok(Some(entry)) => Ok(entry.value.is_some()),
            Ok(None) => Ok(false),
            Err(e) => Err(e),
        }
    }

    /// Reads the value under a key.
    pub fn get<R: Fn(u64, u64, u64) -> Result<Vec<u8>>>(
        &self,
        key: &PlayerId,
        now_secs: u64,
        read: &R,
    ) -> (r: Result<Option<Bytes>>)
        requires
            self.wf(),
            sstable::can_read(*read),
        ensures
            value_gives(sstable::outcomes(*read), self@, key.0, now_secs, read_view(r)),
    {
        if self.is_expired(key, now_secs) {
            return Ok(None);
        }
        let found = self.lookup(key, read);
        assert(entry_gives(
            sstable::outcomes(*read),
            self@,
            key.0,
            sstable::found_view(found),
        ));
        match found {
            Ok(Some(entry)) => Ok(entry.value),
            Ok(None) => Ok(None),
            Err(e) => Err(e),
        }
    }

    /// Lets a key that holds a value expire after some seconds. The time of expiry wraps around.
    pub fn set_expire<R: Fn(u64, u64, u64) -> Result<Vec<u8>>>(
        &mut self,
        key: &PlayerId,
        seconds: u64,
        now_secs: u64,
        read: &R,
    ) -> (r: bool)
        requires
            old(self).wf(),
            sstable::can_read(*read),
        ensures
            final(self).wf(),
            final(self).spec_config() == old(self).spec_config(),
            final(self).spec_compression() == old(self).spec_compression(),
            final(self)@ == (if r {
                EngineView {
                    ttls: old(self)@.ttls.insert(key.0, now_secs.wrapping_add(seconds)),
                    ..old(self)@
                }
            } else {
                old(self)@
            }),
            holds_gives(sstable::outcomes(*read), old(self)@, key.0, now_secs, r),
    {
        let there = match self.key_exists(key, now_secs, read) {
            Ok(b) => b,
            Err(_) => false,
        };
        if !there {
            return false;
        }
        self.ttls.insert(key.0, now_secs.wrapping_add(seconds));
        true
    }

    /// The seconds until a key expires: -2 where it holds no value, -1 where it does not expire.
    pub fn get_ttl<R: Fn(u64, u64, u64) -> Result<Vec<u8>>>(
        &self,
        key: &PlayerId,
        now_secs: u64,
        read: &R,
    ) -> (r: i64)
        requires
            self.wf(),
            sstable::can_read(*read),
        ensures
            exists|there: bool| #[trigger]
                holds_gives(sstable::outcomes(*read), self@, key.0, now_secs, there) && r
                    == time_left(self@.ttls, key.0, now_secs, there),
    {
        let there = match self.key_exists(key, now_secs, read) {
            Ok(b) => b,
            Err(_) => false,
        };
        assert(holds_gives(sstable::outcomes(*read), self@, key.0, now_secs, there));
        if !there {
            return -2;
        }
        match self.ttls.get(&key.0) {
            Some(expires_at) => if now_secs >= *expires_at {
                -2
            } else {
                (*expires_at - now_secs) as i64
            },
            None => -1,
        }
    }

    /// The first `limit` values whose keys lie within bounds, both included, in key order, without
    /// those that have expired.
    pub fn scan<R: Fn(u64, u64, u64) -> Result<Vec<u8>>>(
        &self,
        start_key: Option<PlayerId>,
        end_key: Option<PlayerId>,
        limit: usize,
        now_secs: u64,
        read: &R,
    ) -> (r: Result<Vec<(PlayerId, Bytes)>>)
        requires
            sstable::can_read(*read),
        ensures
            scan_gives(
                sstable::outcomes(*read),
                self@,
                start_key,
                end_key,
                limit as nat,
                now_secs,
                iterator::pairs_result(r),
            ),
            r matches Ok(v) ==> v@.len() <= limit,
    {
        let got = MergingScanner::scan(
            &self.memtable,
            &self.imm_memtables,
            &self.sstables,
            start_key,
            end_key,
            limit,
            read,
        );
        assert(iterator::scan_gives(
            sstable::outcomes(*read),
            self@.memory,
            self@.waiting,
            self@.tables,
            start_key,
            end_key,
            limit as nat,
            iterator::pairs_result(got),
        ));
        let raw = match got {
            Ok(v) => v,
            Err(e) => return Err(e),
        };
        let ghost all = iterator::pairs_view(raw@);
        let mut out: Vec<(PlayerId, Bytes)> = Vec::new();
        let mut i: usize = 0;
        assert(iterator::pairs_view(out@) =~= Seq::empty());
        assert(all.take(0) =~= Seq::empty());
        while i < raw.len()
            invariant
                i <= raw@.len(),
                out@.len() <= i,
                all == iterator::pairs_view(raw@),
                iterator::pairs_view(out@) == unexpired(all.take(i as int), self@.ttls, now_secs),
            decreases raw@.len() - i,
        {
            assert(all.take(i + 1).drop_last() =~= all.take(i as int));
            let key = raw[i].0;
            if !self.is_expired(&key, now_secs) {
                let ghost held = iterator::pairs_view(out@);
                out.push((key, raw[i].1.clone()));
                assert(iterator::pairs_view(out@) =~= held.push(all[i as int]));
            }
            i = i + 1;
        }
        assert(all.take(i as int) =~= all);
        Ok(out)
    }
}

// ---------------------------------------------------------------------------------------------
// Writing
// ---------------------------------------------------------------------------------------------
impl StorageEngine {
    /// Rotates the active memory table: unless it is empty, it joins those that wait.
    fn rotate_memtable(&mut self)
        requires
            old(self).wf(),
        ensures
            final(self).wf(),
            final(self).spec_config() == old(self).spec_config(),
            final(self).spec_compression() == old(self).spec_compression(),
            final(self)@ == rotated(old(self)@),
    {
        if self.memtable.len() == 0 {
            return ;
        }
        let ghost before = self.imm_memtables@;
        let mut full = MemTable::new();
        core::mem::swap(&mut full, &mut self.memtable);
        let ghost item = full@;
        self.imm_memtables.push(full);
        assert(iterator::mems_view(self.imm_memtables@) =~= iterator::mems_view(before).push(item));
    }

    /// Numbers a batch and gives its records, which belong into the log before the batch is
    /// applied.
    pub fn begin_batch(
        &mut self,
        operations: &Vec<(PlayerId, Option<Bytes>, OpType)>,
        now_ms: u64,
    ) -> (r: (u64, u64, Vec<WalRecord>))
        requires
            old(self).wf(),
        ensures
            final(self).wf(),
            final(self).spec_config() == old(self).spec_config(),
            final(self).spec_compression() == old(self).spec_compression(),
            final(self)@ == (EngineView {
                next_seq: wal::seq_after(old(self)@.next_seq, operations@.len() as int),
                ..old(self)@
            }),
            r.0 == old(self)@.next_seq,
            r.1 == (if operations@.len() == 0 {
                0
            } else {
                now_ms
            }),
            wal::records_view(r.2@) == batch_records(
                ops_view(operations@),
                old(self)@.next_seq,
                now_ms,
            ),
    {
        let mut copy: Vec<(PlayerId, Option<Bytes>, OpType)> = Vec::new();
        let ghost ops = ops_view(operations@);
        let mut i: usize = 0;
        assert(ops_view(copy@) =~= ops.take(0));
        while i < operations.len()
            invariant
                i <= operations@.len(),
                copy@.len() == i,
                ops == ops_view(operations@),
                ops_view(copy@) =~= ops.take(i as int),
            decreases operations@.len() - i,
        {
            let value = match &operations[i].1 {
                Some(b) => Some(b.clone()),
                None => None,
            };
            let ghost held = ops_view(copy@);
            copy.push((operations[i].0, value, operations[i].2));
            assert(ops_view(copy@) =~= held.push(ops[i as int]));
            i = i + 1;
        }
        let ghost given = copy@;
        let r = self.wal.append_batch(copy, now_ms);
        proof {
            assert(ops.take(i as int) =~= ops);
            assert(ops_view(given) == ops);
            assert forall|j: int| 0 <= j < given.len() implies wal::records_view(r.2@)[j]
                == #[trigger] batch_records(ops, old(self)@.next_seq, now_ms)[j] by {
                assert(ops_view(given)[j] == ops[j]);
                assert(r.2@[j]@.key == given[j].0.0);
            }
            assert(wal::records_view(r.2@) =~= batch_records(ops, old(self)@.next_seq, now_ms));
        }
        r
    }

    /// Applies a batch that is in the log.
    pub fn finish_batch(
        &mut self,
        operations: Vec<(PlayerId, Option<Bytes>, OpType)>,
        seq_num: u64,
        timestamp: u64,
    )
        requires
            old(self).wf(),
        ensures
            final(self).wf(),
            final(self).spec_config() == old(self).spec_config(),
            final(self).spec_compression() == old(self).spec_compression(),
            final(self)@ == after_batch(
                old(self)@,
                ops_view(operations@),
                seq_num,
                timestamp,
            ),
    {
        if operations.len() == 0 {
            return ;
        }
        let ghost ops = ops_view(operations@);
        let ghost start = self@;
        let mut i: usize = 0;
        assert(ops.take(0) =~= Seq::empty());
        while i < operations.len()
            invariant
                i <= operations@.len(),
                ops == ops_view(operations@),
                self.wf(),
                self.spec_config() == old(self).spec_config(),
                self.spec_compression() == old(self).spec_compression(),
                self@ == (EngineView {
                    memory: applied(start.memory, ops.take(i as int), seq_num, timestamp),
                    memory_size: applied_size(start.memory_size, ops.take(i as int)),
                    ..start
                }),
            decreases operations@.len() - i,
        {
            proof {
                assert(ops.take(i + 1).drop_last() =~= ops.take(i as int));
                assert(ops.take(i + 1).last() == ops[i as int]);
            }
            let entry = match operations[i].2 {
                OpType::Put => {
                    let value = match &operations[i].1 {
                        Some(b) => b.clone(),
                        None => Bytes::new(),
                    };
                    ValueEntry::put(value, seq_num, timestamp)
                },
                OpType::Delete => ValueEntry::delete(seq_num, timestamp),
            };
            assert(entry@ == op_entry(ops[i as int], seq_num, timestamp));
            self.memtable.insert(operations[i].0, entry);
            i = i + 1;
        }
        assert(ops.take(i as int) =~= ops);
        if self.memtable.size_bytes() >= self.memtable_limit_bytes {
            self.rotate_memtable();
        }
    }

    /// Writes a batch: its records go to the log, then its operations are applied. Where the log
    /// cannot be written nothing is applied; the sequence numbers are used up.
    pub fn apply_batch<W: FnOnce(&Vec<WalRecord>) -> Result<()>>(
        &mut self,
        operations: Vec<(PlayerId, Option<Bytes>, OpType)>,
        now_ms: u64,
        write: W,
    ) -> (r: Result<()>)
        requires
            old(self).wf(),
            forall|records: &Vec<WalRecord>| #[trigger] call_requires(write, (records,)),
        ensures
            final(self).wf(),
            final(self).spec_config() == old(self).spec_config(),
            final(self).spec_compression() == old(self).spec_compression(),
            operations@.len() == 0 ==> r is Ok && final(self)@ == old(self)@,
            operations@.len() > 0 ==> logs_batch(
                old(self)@,
                ops_view(operations@),
                now_ms,
                write,
                final(self)@,
                r,
            ),
    {
        if operations.len() == 0 {
            return Ok(());
        }
        let (seq_num, timestamp, records) = self.begin_batch(&operations, now_ms);
        let logged = write(&records);
        let ghost told = logged;
        let r = match logged {
            Err(e) => Err(e),
            Ok(_) => {
                self.finish_batch(operations, seq_num, timestamp);
                Ok(())
            },
        };
        proof {
            assert(call_ensures(write, (&records,), told));
            assert(batch_outcome(
                old(self)@,
                ops_view(operations@),
                now_ms,
                told,
                self@,
                r,
            ));
        }
        r
    }

    /// Stores a value under a key.
    pub fn put<W: FnOnce(&Vec<WalRecord>) -> Result<()>>(
        &mut self,
        key: PlayerId,
        value: Bytes,
        now_ms: u64,
        write: W,
    ) -> (r: Result<()>)
        requires
            old(self).wf(),
            forall|records: &Vec<WalRecord>| #[trigger] call_requires(write, (records,)),
        ensures
            final(self).wf(),
            final(self).spec_config() == old(self).spec_config(),
            final(self).spec_compression() == old(self).spec_compression(),
            logs_batch(
                old(self)@,
                put_ops(key.0, wire::bytes_view(value)),
                now_ms,
                write,
                final(self)@,
                r,
            ),
    {
        let mut operations: Vec<(PlayerId, Option<Bytes>, OpType)> = Vec::new();
        let ghost ops = put_ops(key.0, wire::bytes_view(value));
        operations.push((key, Some(value), OpType::Put));
        assert(ops_view(operations@) =~= ops);
        self.apply_batch(operations, now_ms, write)
    }

    /// Deletes the value under a key.
    pub fn delete<W: FnOnce(&Vec<WalRecord>) -> Result<()>>(
        &mut self,
        key: PlayerId,
        now_ms: u64,
        write: W,
    ) -> (r: Result<()>)
        requires
            old(self).wf(),
            forall|records: &Vec<WalRecord>| #[trigger] call_requires(write, (records,)),
        ensures
            final(self).wf(),
            final(self).spec_config() == old(self).spec_config(),
            final(self).spec_compression() == old(self).spec_compression(),
            logs_batch(old(self)@, delete_ops(key.0), now_ms, write, final(self)@, r),
    {
        let mut operations: Vec<(PlayerId, Option<Bytes>, OpType)> = Vec::new();
        operations.push((key, None, OpType::Delete));
        assert(ops_view(operations@) =~= delete_ops(key.0));
        self.apply_batch(operations, now_ms, write)
    }

    /// Rotates the active memory table at once, so that it is flushed next.
    pub fn force_flush(&mut self)
        requires
            old(self).wf(),
        ensures
            final(self).wf(),
            final(self).spec_config() == old(self).spec_config(),
            final(self).spec_compression() == old(self).spec_compression(),
            final(self)@ == rotated(old(self)@),
    {
        self.rotate_memtable();
    }
}

/// The operation that stores a value.
pub open spec fn put_ops(key: u128, value: Seq<u8>) -> Seq<OpView> {
    seq![OpView { key, value: Some(value), op: OpType::Put }]
}

/// The operation that deletes a value.
pub open spec fn delete_ops(key: u128) -> Seq<OpView> {
    seq![OpView { key, value: None, op: OpType::Delete }]
}

// ---------------------------------------------------------------------------------------------
// Background work
// ---------------------------------------------------------------------------------------------
/// What the background worker does next.
#[derive(Debug, Clone, Copy, PartialEq, Eq, Structural)]
pub enum WorkerStep {
    Flush,
    Compact,
    Wait,
}

/// What a backup does next: while memory holds records, the oldest memory table is flushed; then the
/// files are copied.
#[derive(Debug, Clone, Copy, PartialEq, Eq, Structural)]
pub enum BackupStep {
    Flush,
    Copy,
}

/// A flush or compaction ended, given how storing its file did.
pub open spec fn stored_as(told: Result<()>, r: Result<()>) -> bool {
    match told {
        Ok(_) => r is Ok,
        Err(e) => r == Err::<(), DbError>(e),
    }
}

/// A flush of the oldest memory table that waits. Its file is built and stored, and the table is
/// then the newest; where that fails no table is added. The memory table no longer waits either
/// way.
pub open spec fn flushed<S: FnOnce(&str, &Bytes) -> Result<()>>(
    before: EngineView,
    dir: Seq<char>,
    empty_bloom: BloomView,
    store: S,
    after: EngineView,
    r: Result<()>,
) -> bool {
    if before.waiting.len() == 0 {
        r is Ok && after == before
    } else {
        let entries = memtable::sorted_range(before.waiting[0], None, None);
        let rest = EngineView { waiting: before.waiting.skip(1), ..before };
        if before.waiting[0].len() == 0 {
            r is Ok && after == rest
        } else {
            let numbered = EngineView { next_sst_id: before.next_sst_id.wrapping_add(1), ..rest };
            let path = table_path(dir, before.next_sst_id);
            if !sstable::file_fits(entries, empty_bloom.bytes.len()) {
                &&& r matches Err(e) && e@ == ErrorView::Io(compaction::TOO_LARGE@)
                &&& after == numbered
            } else {
                new_table(
                    numbered,
                    path,
                    before.next_sst_id,
                    0,
                    entries,
                    empty_bloom,
                    store,
                    after,
                    r,
                    |t: TableView| EngineView { tables: seq![t] + numbered.tables, ..numbered },
                )
            }
        }
    }
}

/// A table was built of some entries, and, where its file could be opened and stored, taken in.
pub open spec fn new_table<S: FnOnce(&str, &Bytes) -> Result<()>>(
    without: EngineView,
    path: Seq<char>,
    id: u64,
    level: u32,
    entries: Seq<(u128, EntryView)>,
    empty_bloom: BloomView,
    store: S,
    after: EngineView,
    r: Result<()>,
    with_table: spec_fn(TableView) -> EngineView,
) -> bool {
    exists|bloom: BloomView| #[trigger]
        sstable::all_inserted(empty_bloom, entries, bloom) && ({
            let image = sstable::file_bytes(entries, sstable::DEFAULT_BLOCK_SIZE as nat, bloom);
            match sstable::opened_image(path, image, id, level) {
                Err(e) => (r matches Err(err) && err@ == e) && after == without,
                Ok(t) => stores(store, path, image, r) && after == (if r is Ok {
                    with_table(t)
                } else {
                    without
                }),
            }
        })
}

/// The file was handed to be stored, and that ended as told.
pub open spec fn stores<S: FnOnce(&str, &Bytes) -> Result<()>>(
    store: S,
    path: Seq<char>,
    image: Seq<u8>,
    r: Result<()>,
) -> bool {
    exists|p: &str, b: &Bytes, told: Result<()>| #[trigger]
        call_ensures(store, (p, b), told) && p@ == path && wire::bytes_view(*b) == image
            && stored_as(told, r)
}

/// The tables among the first `n` whose file is none of some.
pub open spec fn tables_without(tables: Seq<TableView>, paths: Seq<Seq<char>>, n: int) -> Seq<
    TableView,
>
    decreases n,
{
    if n <= 0 {
        Seq::empty()
    } else if paths.contains(tables[n - 1].path) {
        tables_without(tables, paths, n - 1)
    } else {
        tables_without(tables, paths, n - 1).push(tables[n - 1])
    }
}

/// The tables after a compaction: those merged are gone, the new one has its place.
pub open spec fn tables_after(tables: Seq<TableView>, paths: Seq<Seq<char>>, t: TableView) -> Seq<
    TableView,
> {
    sorted_tables(tables_without(tables, paths, tables.len() as int).push(t))
}

/// The files of the tables at some places.
pub open spec fn paths_at(tables: Seq<TableView>, places: Seq<int>) -> Seq<Seq<char>> {
    Seq::new(places.len(), |i: int| tables[places[i]].path)
}

/// The texts of a list.
pub open spec fn texts(s: Seq<String>) -> Seq<Seq<char>> {
    Seq::new(s.len(), |i: int| s[i]@)
}

/// How a step ended, without what it gave.
pub open spec fn ended<T>(r: Result<T>) -> Result<()> {
    match r {
        Ok(_) => Ok(()),
        Err(e) => Err(e),
    }
}

/// An engine whose next table has taken the place of those of a plan.
pub open spec fn after_merge(
    before: EngineView,
    plan: compaction::PlanView,
    t: TableView,
) -> EngineView {
    EngineView {
        next_sst_id: before.next_sst_id.wrapping_add(1),
        tables: tables_after(before.tables, paths_at(before.tables, plan.inputs), t),
        ..before
    }
}

/// How the tables of a plan are replaced by one that holds their merged entries: what goes is the list
/// of their files. Where the merge leaves no entry, the tables stay as they are.
pub open spec fn replaces<S: FnOnce(&str, &Bytes) -> Result<()>>(
    before: EngineView,
    dir: Seq<char>,
    plan: compaction::PlanView,
    empty_bloom: BloomView,
    merged: core::result::Result<Seq<(u128, EntryView)>, ErrorView>,
    store: S,
    after: EngineView,
    r: Result<Vec<String>>,
) -> bool {
    let numbered = EngineView { next_sst_id: before.next_sst_id.wrapping_add(1), ..before };
    match merged {
        Err(e) => after == numbered && (r matches Err(err) && err@ == e),
        Ok(s) => if s.len() == 0 {
            after == numbered && (r matches Ok(gone) && gone@.len() == 0)
        } else if !sstable::file_fits(s, empty_bloom.bytes.len()) {
            &&& after == numbered
            &&& r matches Err(err) && err@ == ErrorView::Io(compaction::TOO_LARGE@)
        } else {
            &&& r matches Ok(v) ==> texts(v@) == paths_at(before.tables, plan.inputs)
            &&& new_table(
                numbered,
                table_path(dir, before.next_sst_id),
                before.next_sst_id,
                plan.output_level,
                s,
                empty_bloom,
                store,
                after,
                ended(r),
                |t: TableView| after_merge(before, plan, t),
            )
        },
    }
}

/// One compaction: the tables of the plan, as far as there is one, are merged into a new one.
pub open spec fn compacts<S: FnOnce(&str, &Bytes) -> Result<()>>(
    before: EngineView,
    dir: Seq<char>,
    l0_trigger: nat,
    empty_bloom: BloomView,
    can: Reads,
    store: S,
    after: EngineView,
    r: Result<Vec<String>>,
) -> bool {
    match compaction::plan_for(before.tables, l0_trigger) {
        None => after == before && (r matches Ok(gone) && gone@.len() == 0),
        Some(plan) => exists|m: core::result::Result<Seq<(u128, EntryView)>, ErrorView>| #[trigger]
            compaction::merge_gives(can, before.tables, plan.inputs, plan.is_bottom_level, m)
                && replaces(before, dir, plan, empty_bloom, m, store, after, r),
    }
}

/// A text is on a list.
fn has_text(list: &Vec<String>, s: &str) -> (r: bool)
    ensures
        r == texts(list@).contains(s@),
{
    let ghost view = texts(list@);
    let mut i: usize = 0;
    while i < list.len()
        invariant
            i <= list@.len(),
            view == texts(list@),
            forall|j: int| 0 <= j < i ==> #[trigger] view[j] != s@,
        decreases list@.len() - i,
    {
        if text::text_eq(list[i].as_str(), s) {
            assert(view[i as int] == s@);
            return true;
        }
        assert(view[i as int] != s@);
        i = i + 1;
    }
    false
}

/// The tables whose file is none of some.
fn drop_tables(tables: &Vec<SsTable>, paths: &Vec<String>) -> (r: Vec<SsTable>)
    requires
        forall|i: int| 0 <= i < tables@.len() ==> (#[trigger] tables@[i]).wf(),
    ensures
        forall|i: int| 0 <= i < r@.len() ==> (#[trigger] r@[i]).wf(),
        iterator::tables_view(r@) == tables_without(
            iterator::tables_view(tables@),
            texts(paths@),
            tables@.len() as int,
        ),
{
    let ghost view = iterator::tables_view(tables@);
    let ghost pv = texts(paths@);
    let mut kept: Vec<SsTable> = Vec::new();
    let mut i: usize = 0;
    assert(iterator::tables_view(kept@) =~= Seq::empty());
    while i < tables.len()
        invariant
            i <= tables@.len(),
            view == iterator::tables_view(tables@),
            pv == texts(paths@),
            forall|j: int| 0 <= j < tables@.len() ==> (#[trigger] tables@[j]).wf(),
            forall|j: int| 0 <= j < kept@.len() ==> (#[trigger] kept@[j]).wf(),
            iterator::tables_view(kept@) == tables_without(view, pv, i as int),
        decreases tables@.len() - i,
    {
        let ghost before = iterator::tables_view(kept@);
        let table = &tables[i];
        assert(view[i as int] == table@);
        if !has_text(paths, table.path()) {
            let copy = table.clone();
            let ghost cv = copy@;
            kept.push(copy);
            assert(iterator::tables_view(kept@) =~= before.push(cv));
        }
        i = i + 1;
    }
    kept
}

/// The tables in their order: by level, newest first within one.
fn sort_tables(tables: Vec<SsTable>) -> (r: Vec<SsTable>)
    requires
        forall|i: int| 0 <= i < tables@.len() ==> (#[trigger] tables@[i]).wf(),
    ensures
        forall|i: int| 0 <= i < r@.len() ==> (#[trigger] r@[i]).wf(),
        iterator::tables_view(r@) == sorted_tables(iterator::tables_view(tables@)),
{
    let ghost view = iterator::tables_view(tables@);
    let mut sorted: Vec<SsTable> = Vec::new();
    let mut i: usize = 0;
    assert(view.take(0) =~= Seq::empty());
    assert(iterator::tables_view(sorted@) =~= Seq::empty());
    while i < tables.len()
        invariant
            i <= tables@.len(),
            view == iterator::tables_view(tables@),
            forall|j: int| 0 <= j < tables@.len() ==> (#[trigger] tables@[j]).wf(),
            forall|j: int| 0 <= j < sorted@.len() ==> (#[trigger] sorted@[j]).wf(),
            iterator::tables_view(sorted@) == sorted_tables(view.take(i as int)),
        decreases tables@.len() - i,
    {
        let copy = tables[i].clone();
        proof {
            assert(view[i as int] == copy@);
            assert(view.take(i + 1).drop_last() =~= view.take(i as int));
        }
        sorted = place_table(sorted, copy);
        i = i + 1;
    }
    assert(view.take(i as int) =~= view);
    sorted
}

impl StorageEngine {
    /// What the background worker does after a step: it flushes while memory tables wait, compacts
    /// once where there are enough tables, then waits.
    pub fn worker_step(&self, last: WorkerStep) -> (r: WorkerStep)
        ensures
            r == (if last == WorkerStep::Compact {
                WorkerStep::Wait
            } else if self@.waiting.len() > 0 {
                WorkerStep::Flush
            } else if self@.tables.len() >= self.spec_config().l0_compaction_trigger {
                WorkerStep::Compact
            } else {
                WorkerStep::Wait
            }),
    {
        if last == WorkerStep::Compact {
            WorkerStep::Wait
        } else if self.imm_memtables.len() > 0 {
            WorkerStep::Flush
        } else if self.sstables.len() >= self.config.l0_compaction_trigger {
            WorkerStep::Compact
        } else {
            WorkerStep::Wait
        }
    }

    /// What a backup does next. The active memory table is rotated, so that it is flushed too; once
    /// the files are to be copied, memory holds nothing.
    pub fn backup_step(&mut self) -> (r: BackupStep)
        requires
            old(self).wf(),
        ensures
            final(self).wf(),
            final(self).spec_config() == old(self).spec_config(),
            final(self).spec_compression() == old(self).spec_compression(),
            final(self)@ == rotated(old(self)@),
            r == (if final(self)@.waiting.len() > 0 {
                BackupStep::Flush
            } else {
                BackupStep::Copy
            }),
            r == BackupStep::Copy ==> final(self)@.memory == Map::<u128, EntryView>::empty(),
    {
        self.rotate_memtable();
        if self.imm_memtables.len() > 0 {
            BackupStep::Flush
        } else {
            proof {
                self.memtable.lemma_finite();
                assert(self.memtable@.dom() =~= Set::empty());
                assert(self.memtable@ =~= Map::empty());
            }
            BackupStep::Copy
        }
    }

    /// The number of entries that the next flush writes.
    pub fn flush_size(&self) -> (r: usize)
        ensures
            r == (if self@.waiting.len() == 0 {
                0
            } else {
                self@.waiting[0].len()
            }),
    {
        if self.imm_memtables.len() == 0 {
            0
        } else {
            self.imm_memtables[0].len()
        }
    }

    /// Flushes the oldest memory table that waits to a new table. `bloom` is an empty filter of the
    /// size that the table is to have.
    pub fn flush_memtable_to_sstable<S: FnOnce(&str, &Bytes) -> Result<()>>(
        &mut self,
        bloom: BloomFilter,
        store: S,
    ) -> (r: Result<()>)
        requires
            old(self).wf(),
            bloom.wf(),
            bloom@.bytes.len() > 0,
            forall|path: &str, image: &Bytes| #[trigger] call_requires(store, (path, image)),
        ensures
            final(self).wf(),
            final(self).spec_config() == old(self).spec_config(),
            final(self).spec_compression() == old(self).spec_compression(),
            flushed(
                old(self)@,
                old(self).spec_config().db_path@,
                bloom@,
                store,
                final(self)@,
                r,
            ),
    {
        if self.imm_memtables.len() == 0 {
            return Ok(());
        }
        let ghost before = self@;
        let ghost held = self.imm_memtables@;
        let ghost empty_bloom = bloom@;
        let memtable = self.imm_memtables.remove(0);
        proof {
            assert(iterator::mems_view(self.imm_memtables@) =~= before.waiting.skip(1));
            assert forall|i: int| 0 <= i < self.imm_memtables@.len() implies (
            #[trigger] self.imm_memtables@[i]).wf() by {
                assert(self.imm_memtables@[i] == held[i + 1]);
            }
        }
        if memtable.len() == 0 {
            return Ok(());
        }
        let sst_id: u64 = self.next_sst_id;
        self.next_sst_id = sst_id.wrapping_add(1);
        let ghost numbered = self@;
        let path = table_file(self.config.db_path.as_str(), sst_id);
        let builder = SsTableBuilder::new(path.as_str(), sst_id, 0);
        let entries = memtable.iter();
        let ghost ev = types::entries_view(entries@);
        proof {
            memtable.lemma_finite();
            lemma_listed_len(ev, memtable@);
        }
        if !SsTableBuilder::fits(&entries, bloom.byte_len()) {
            return Err(DbError::Io(compaction::TOO_LARGE.to_owned()));
        }
        let ghost grow = |t: TableView| EngineView { tables: seq![t] + numbered.tables, ..numbered };
        match builder.build(&entries, bloom) {
            Err(e) => {
                proof {
                    let filter = choose|filter: BloomView| #[trigger]
                        sstable::built(builder, ev, empty_bloom, filter, Err(e));
                    assert(sstable::all_inserted(empty_bloom, ev, filter));
                    assert(new_table(
                        numbered,
                        path@,
                        sst_id,
                        0,
                        ev,
                        empty_bloom,
                        store,
                        self@,
                        Err(e),
                        grow,
                    ));
                }
                Err(e)
            },
            Ok(None) => Ok(()),
            Ok(Some((image, table))) => {
                let name = path.as_str();
                let told = store(name, &image);
                let ghost heard = told;
                let ghost tv = table@;
                let r = match told {
                    Err(e) => Err(e),
                    Ok(_) => {
                        let ghost tables = self.sstables@;
                        self.sstables.insert(0, table);
                        proof {
                            assert(iterator::tables_view(self.sstables@) =~= seq![tv]
                                + numbered.tables);
                            assert forall|i: int| 0 <= i < self.sstables@.len() implies (
                            #[trigger] self.sstables@[i]).wf() by {
                                if i > 0 {
                                    assert(self.sstables@[i] == tables[i - 1]);
                                }
                            }
                        }
                        Ok(())
                    },
                };
                proof {
                    let filter = choose|filter: BloomView| #[trigger]
                        sstable::built(builder, ev, empty_bloom, filter, Ok(Some((image, table))));
                    assert(sstable::all_inserted(empty_bloom, ev, filter));
                    let bytes = sstable::file_bytes(
                        ev,
                        sstable::DEFAULT_BLOCK_SIZE as nat,
                        filter,
                    );
                    assert(call_ensures(store, (name, &image), heard));
                    assert(stores(store, path@, bytes, r));
                    assert(new_table(
                        numbered,
                        path@,
                        sst_id,
                        0,
                        ev,
                        empty_bloom,
                        store,
                        self@,
                        r,
                        grow,
                    ));
                }
                r
            },
        }
    }
}

impl StorageEngine {
    /// The number of entries in the tables that the next compaction merges, as far as there is one.
    pub fn compaction_size(&self) -> (r: Option<u64>)
        ensures
            r == (match compaction::plan_for(
                self@.tables,
                self.spec_config().l0_compaction_trigger as nat,
            ) {
                None => None,
                Some(plan) => Some(compaction::entry_total(self@.tables, plan.inputs)),
            }),
    {
        match Compactor::pick_compaction(&self.sstables, self.config.l0_compaction_trigger) {
            None => None,
            Some(plan) => Some(Compactor::estimated_entries(&self.sstables, &plan.inputs)),
        }
    }

    /// Puts a table in the place of others. Gives their files.
    fn replace_tables(&mut self, inputs: &Vec<usize>, table: SsTable) -> (gone: Vec<String>)
        requires
            old(self).wf(),
            table.wf(),
            compaction::places_in(
                compaction::places_view(inputs@),
                old(self)@.tables.len() as int,
            ),
        ensures
            final(self).wf(),
            final(self).spec_config() == old(self).spec_config(),
            final(self).spec_compression() == old(self).spec_compression(),
            texts(gone@) == paths_at(old(self)@.tables, compaction::places_view(inputs@)),
            final(self)@ == (EngineView {
                tables: tables_after(old(self)@.tables, texts(gone@), table@),
                ..old(self)@
            }),
    {
        let ghost before = self@;
        let ghost places = compaction::places_view(inputs@);
        let ghost paths = paths_at(before.tables, places);
        let ghost tv = table@;
        let mut gone: Vec<String> = Vec::new();
        let mut i: usize = 0;
        assert(texts(gone@) =~= paths.take(0));
        while i < inputs.len()
            invariant
                i <= inputs@.len(),
                places == compaction::places_view(inputs@),
                compaction::places_in(places, self.sstables@.len() as int),
                before.tables == iterator::tables_view(self.sstables@),
                paths == paths_at(before.tables, places),
                texts(gone@) == paths.take(i as int),
            decreases inputs@.len() - i,
        {
            let at: usize = inputs[i];
            let ghost so_far = texts(gone@);
            proof {
                assert(places[i as int] == at as int);
                assert(before.tables[at as int] == self.sstables@[at as int]@);
            }
            gone.push(self.sstables[at].path().to_owned());
            proof {
                assert(texts(gone@) =~= so_far.push(paths[i as int]));
                assert(paths.take(i + 1) =~= paths.take(i as int).push(paths[i as int]));
            }
            i = i + 1;
        }
        assert(paths.take(i as int) =~= paths);
        let mut list = drop_tables(&self.sstables, &gone);
        let ghost rest = iterator::tables_view(list@);
        list.push(table);
        assert(iterator::tables_view(list@) =~= rest.push(tv));
        self.sstables = sort_tables(list);
        gone
    }

    /// Merges the tables of a plan into one, which takes their place.
    fn merge_planned<
        R: Fn(u64, u64, u64) -> Result<Vec<u8>>,
        S: FnOnce(&str, &Bytes) -> Result<()>,
    >(&mut self, plan: CompactionPlan, bloom: BloomFilter, read: &R, store: S) -> (r: Result<
        Vec<String>,
    >)
        requires
            old(self).wf(),
            bloom.wf(),
            bloom@.bytes.len() > 0,
            sstable::can_read(*read),
            forall|path: &str, image: &Bytes| #[trigger] call_requires(store, (path, image)),
            compaction::places_in(plan@.inputs, old(self)@.tables.len() as int),
        ensures
            final(self).wf(),
            final(self).spec_config() == old(self).spec_config(),
            final(self).spec_compression() == old(self).spec_compression(),
            exists|m: core::result::Result<Seq<(u128, EntryView)>, ErrorView>| #[trigger]
                compaction::merge_gives(
                    sstable::outcomes(*read),
                    old(self)@.tables,
                    plan@.inputs,
                    plan@.is_bottom_level,
                    m,
                ) && replaces(
                    old(self)@,
                    old(self).spec_config().db_path@,
                    plan@,
                    bloom@,
                    m,
                    store,
                    final(self)@,
                    r,
                ),
    {
        let ghost before = self@;
        let ghost empty_bloom = bloom@;
        let ghost dir = self.config.db_path@;
        let ghost can = sstable::outcomes(*read);
        let sst_id: u64 = self.next_sst_id;
        self.next_sst_id = sst_id.wrapping_add(1);
        let path = table_file(self.config.db_path.as_str(), sst_id);
        let builder = SsTableBuilder::new(path.as_str(), sst_id, plan.output_level);
        let out = Compactor::compact(
            &self.sstables,
            &plan.inputs,
            plan.is_bottom_level,
            builder,
            bloom,
            read,
        );
        let ghost outcome = out;
        let ghost m = choose|m: core::result::Result<Seq<(u128, EntryView)>, ErrorView>| #[trigger]
            compaction::merge_gives(
                can,
                before.tables,
                plan@.inputs,
                plan@.is_bottom_level,
                m,
            ) && compaction::compact_gives(m, builder, empty_bloom, outcome);
        match out {
            Err(e) => {
                assert(replaces(before, dir, plan@, empty_bloom, m, store, self@, Err(e))) by {
                    lemma_merge_failed(
                        before,
                        dir,
                        plan@,
                        builder,
                        empty_bloom,
                        m,
                        store,
                        outcome,
                        Err(e),
                    );
                }
                Err(e)
            },
            Ok(None) => {
                let none: Vec<String> = Vec::new();
                assert(replaces(before, dir, plan@, empty_bloom, m, store, self@, Ok(none)));
                Ok(none)
            },
            Ok(Some((image, table))) => {
                let name = path.as_str();
                let told = store(name, &image);
                let ghost heard = told;
                let r = match told {
                    Err(e) => Err(e),
                    Ok(_) => Ok(self.replace_tables(&plan.inputs, table)),
                };
                assert(replaces(before, dir, plan@, empty_bloom, m, store, self@, r)) by {
                    lemma_merge_stored(
                        before,
                        dir,
                        plan@,
                        builder,
                        empty_bloom,
                        m,
                        store,
                        outcome,
                        name,
                        heard,
                        self@,
                        r,
                    );
                }
                r
            },
        }
    }

    /// Merges the tables that are due into one, which takes their place. Gives the files that are
    /// no longer used. `bloom` is an empty filter of the size that the new table is to have.
    pub fn run_compaction<
        R: Fn(u64, u64, u64) -> Result<Vec<u8>>,
        S: FnOnce(&str, &Bytes) -> Result<()>,
    >(&mut self, bloom: BloomFilter, read: &R, store: S) -> (r: Result<Vec<String>>)
        requires
            old(self).wf(),
            bloom.wf(),
            bloom@.bytes.len() > 0,
            sstable::can_read(*read),
            forall|path: &str, image: &Bytes| #[trigger] call_requires(store, (path, image)),
        ensures
            final(self).wf(),
            final(self).spec_config() == old(self).spec_config(),
            final(self).spec_compression() == old(self).spec_compression(),
            compacts(
                old(self)@,
                old(self).spec_config().db_path@,
                old(self).spec_config().l0_compaction_trigger as nat,
                bloom@,
                sstable::outcomes(*read),
                store,
                final(self)@,
                r,
            ),
            final(self)@ == (EngineView {
                tables: final(self)@.tables,
                next_sst_id: final(self)@.next_sst_id,
                ..old(self)@
            }),
            r is Err ==> final(self)@.tables == old(self)@.tables,
    {
        let ghost before = self@;
        let ghost empty_bloom = bloom@;
        let ghost dir = self.config.db_path@;
        let ghost trigger = self.config.l0_compaction_trigger as nat;
        match Compactor::pick_compaction(&self.sstables, self.config.l0_compaction_trigger) {
            None => Ok(Vec::new()),
            Some(plan) => {
                let ghost pv = plan@;
                let r = self.merge_planned(plan, bloom, read, store);
                proof {
                    let m = choose|
                        m: core::result::Result<Seq<(u128, EntryView)>, ErrorView>,
                    | #[trigger]
                        compaction::merge_gives(
                            sstable::outcomes(*read),
                            before.tables,
                            pv.inputs,
                            pv.is_bottom_level,
                            m,
                        ) && replaces(before, dir, pv, empty_bloom, m, store, self@, r);
                    lemma_planned_compacts(
                        before,
                        dir,
                        trigger,
                        empty_bloom,
                        sstable::outcomes(*read),
                        pv,
                        m,
                        store,
                        self@,
                        r,
                    );
                }
                r
            },
        }
    }
}

proof fn lemma_planned_compacts<S: FnOnce(&str, &Bytes) -> Result<()>>(
    before: EngineView,
    dir: Seq<char>,
    l0_trigger: nat,
    empty_bloom: BloomView,
    can: Reads,
    plan: compaction::PlanView,
    m: core::result::Result<Seq<(u128, EntryView)>, ErrorView>,
    store: S,
    after: EngineView,
    r: Result<Vec<String>>,
)
    requires
        compaction::plan_for(before.tables, l0_trigger) == Some(plan),
        compaction::merge_gives(can, before.tables, plan.inputs, plan.is_bottom_level, m),
        replaces(before, dir, plan, empty_bloom, m, store, after, r),
    ensures
        compacts(before, dir, l0_trigger, empty_bloom, can, store, after, r),
{
    match compaction::plan_for(before.tables, l0_trigger) {
        None => {},
        Some(p) => {
            assert(exists|n: core::result::Result<Seq<(u128, EntryView)>, ErrorView>| #[trigger]
                compaction::merge_gives(can, before.tables, p.inputs, p.is_bottom_level, n)
                    && replaces(before, dir, p, empty_bloom, n, store, after, r));
        },
    }
}

/// The builder of the table that a merge makes.
spec fn builds_merge(
    before: EngineView,
    dir: Seq<char>,
    plan: compaction::PlanView,
    builder: SsTableBuilder,
) -> bool {
    &&& builder.spec_path() == table_path(dir, before.next_sst_id)
    &&& builder.spec_id() == before.next_sst_id
    &&& builder.spec_level() == plan.output_level
    &&& builder.spec_target() == sstable::DEFAULT_BLOCK_SIZE
}

proof fn lemma_merge_failed<S: FnOnce(&str, &Bytes) -> Result<()>>(
    before: EngineView,
    dir: Seq<char>,
    plan: compaction::PlanView,
    builder: SsTableBuilder,
    empty_bloom: BloomView,
    m: core::result::Result<Seq<(u128, EntryView)>, ErrorView>,
    store: S,
    outcome: Result<Option<(Bytes, SsTable)>>,
    r: Result<Vec<String>>,
)
    requires
        builds_merge(before, dir, plan, builder),
        compaction::compact_gives(m, builder, empty_bloom, outcome),
        outcome matches Err(e) && r == Err::<Vec<String>, DbError>(e),
    ensures
        replaces(
            before,
            dir,
            plan,
            empty_bloom,
            m,
            store,
            EngineView { next_sst_id: before.next_sst_id.wrapping_add(1), ..before },
            r,
        ),
{
    if let Ok(s) = m {
        if s.len() > 0 && sstable::file_fits(s, empty_bloom.bytes.len()) {
            let filter = choose|filter: BloomView| #[trigger]
                sstable::built(builder, s, empty_bloom, filter, outcome);
            assert(sstable::all_inserted(empty_bloom, s, filter));
        }
    }
}

proof fn lemma_merge_stored<S: FnOnce(&str, &Bytes) -> Result<()>>(
    before: EngineView,
    dir: Seq<char>,
    plan: compaction::PlanView,
    builder: SsTableBuilder,
    empty_bloom: BloomView,
    m: core::result::Result<Seq<(u128, EntryView)>, ErrorView>,
    store: S,
    outcome: Result<Option<(Bytes, SsTable)>>,
    name: &str,
    told: Result<()>,
    after: EngineView,
    r: Result<Vec<String>>,
)
    requires
        builds_merge(before, dir, plan, builder),
        compaction::compact_gives(m, builder, empty_bloom, outcome),
        outcome matches Ok(Some(out)) && call_ensures(store, (name, &out.0), told) && match told {
            Ok(_) => (r matches Ok(v) && texts(v@) == paths_at(before.tables, plan.inputs))
                && after == after_merge(before, plan, out.1@),
            Err(e) => r == Err::<Vec<String>, DbError>(e) && after == (EngineView {
                next_sst_id: before.next_sst_id.wrapping_add(1),
                ..before
            }),
        },
        name@ == builder.spec_path(),
    ensures
        replaces(before, dir, plan, empty_bloom, m, store, after, r),
{
    let s = m->Ok_0;
    let image = outcome->Ok_0->Some_0.0;
    let filter = choose|filter: BloomView| #[trigger]
        sstable::built(builder, s, empty_bloom, filter, outcome);
    assert(sstable::all_inserted(empty_bloom, s, filter));
    assert(call_ensures(store, (name, &image), told));
    assert(stores(store, name@, wire::bytes_view(image), ended(r)));
}

// ---------------------------------------------------------------------------------------------
// Size and settings
// ---------------------------------------------------------------------------------------------
/// The number of entries in the first `n` of the memory tables that wait; it wraps around.
pub open spec fn waiting_total(waiting: Seq<Map<u128, EntryView>>, n: int) -> usize
    decreases n,
{
    if n <= 0 {
        0
    } else {
        waiting_total(waiting, n - 1).wrapping_add(waiting[n - 1].len() as usize)
    }
}

/// The number of records that hold a value, as far as the machine can count.
pub open spec fn record_count(
    v: EngineView,
    files: spec_fn(u64) -> FileView,
) -> core::result::Result<nat, ErrorView> {
    match iterator::scanned(
        v.memory,
        v.waiting,
        v.tables,
        files,
        None,
        None,
        usize::MAX as nat,
    ) {
        Ok(s) => Ok(s.len()),
        Err(e) => Err(e),
    }
}

/// The number of pairs that a scan gave.
pub open spec fn counted(
    got: core::result::Result<Seq<(u128, Seq<u8>)>, ErrorView>,
) -> core::result::Result<nat, ErrorView> {
    match got {
        Ok(s) => Ok(s.len()),
        Err(e) => Err(e),
    }
}

/// What counting the records that hold a value may give.
pub open spec fn count_gives(
    can: Reads,
    v: EngineView,
    r: core::result::Result<nat, ErrorView>,
) -> bool {
    exists|got: core::result::Result<Seq<(u128, Seq<u8>)>, ErrorView>| #[trigger]
        iterator::scan_gives(
            can,
            v.memory,
            v.waiting,
            v.tables,
            None,
            None,
            usize::MAX as nat,
            got,
        ) && r == counted(got)
}

/// A result that holds a number, by view.
pub open spec fn number_view(r: Result<u64>) -> core::result::Result<nat, ErrorView> {
    match r {
        Ok(n) => Ok(n as nat),
        Err(e) => Err(e@),
    }
}

pub proof fn lemma_count_within(
    a: Reads,
    b: Reads,
    v: EngineView,
    r: core::result::Result<nat, ErrorView>,
)
    requires
        sstable::within(a, b),
        count_gives(a, v, r),
    ensures
        count_gives(b, v, r),
{
    let all = usize::MAX as nat;
    let got = choose|got: core::result::Result<Seq<(u128, Seq<u8>)>, ErrorView>| #[trigger]
        iterator::scan_gives(a, v.memory, v.waiting, v.tables, None, None, all, got) && r
            == counted(got);
    iterator::lemma_scan_within(a, b, v.memory, v.waiting, v.tables, None, None, all, got);
}

/// Where reads are fixed, counting the records gives one thing.
pub proof fn lemma_count_fixed(
    can: Reads,
    files: spec_fn(u64) -> FileView,
    v: EngineView,
    r: core::result::Result<nat, ErrorView>,
)
    requires
        sstable::within(can, sstable::fixed(files)),
        count_gives(can, v, r),
    ensures
        r == record_count(v, files),
{
    let all = usize::MAX as nat;
    let got = choose|got: core::result::Result<Seq<(u128, Seq<u8>)>, ErrorView>| #[trigger]
        iterator::scan_gives(can, v.memory, v.waiting, v.tables, None, None, all, got) && r
            == counted(got);
    iterator::lemma_scan_fixed(can, files, v.memory, v.waiting, v.tables, None, None, all, got);
}

impl StorageEngine {
    fn waiting_entries(&self) -> (r: usize)
        ensures
            r == waiting_total(self@.waiting, self@.waiting.len() as int),
    {
        let mut total: usize = 0;
        let mut i: usize = 0;
        while i < self.imm_memtables.len()
            invariant
                i <= self.imm_memtables@.len(),
                total == waiting_total(self@.waiting, i as int),
            decreases self.imm_memtables@.len() - i,
        {
            assert(self@.waiting[i as int] == self.imm_memtables@[i as int]@);
            total = total.wrapping_add(self.imm_memtables[i].len());
            i = i + 1;
        }
        total
    }

    /// The number of entries in the active memory table, the number in those that wait, and the
    /// number of tables.
    pub fn stats(&self) -> (r: (usize, usize, usize))
        ensures
            r.0 == self@.memory.len(),
            r.1 == waiting_total(self@.waiting, self@.waiting.len() as int),
            r.2 == self@.tables.len(),
    {
        (self.memtable.len(), self.waiting_entries(), self.sstables.len())
    }

    /// The number of active records in memory and in the tables: each key counts once, and only
    /// where it holds a value.
    pub fn total_entries<R: Fn(u64, u64, u64) -> Result<Vec<u8>>>(&self, read: &R) -> (r: Result<
        u64,
    >)
        requires
            sstable::can_read(*read),
        ensures
            count_gives(sstable::outcomes(*read), self@, number_view(r)),
    {
        let got = MergingScanner::scan(
            &self.memtable,
            &self.imm_memtables,
            &self.sstables,
            None,
            None,
            usize::MAX,
            read,
        );
        assert(iterator::scan_gives(
            sstable::outcomes(*read),
            self@.memory,
            self@.waiting,
            self@.tables,
            None,
            None,
            usize::MAX as nat,
            iterator::pairs_result(got),
        ));
        match got {
            Ok(v) => {
                assert(iterator::pairs_view(v@).len() == v@.len());
                Ok(v.len() as u64)
            },
            Err(e) => Err(e),
        }
    }

    /// Drops all records. Gives the files that are no longer used; the log is to be emptied too.
    pub fn truncate(&mut self) -> (r: Vec<String>)
        requires
            old(self).wf(),
        ensures
            final(self).wf(),
            final(self).spec_config() == old(self).spec_config(),
            final(self).spec_compression() == old(self).spec_compression(),
            final(self)@ == (EngineView {
                memory: Map::empty(),
                memory_size: 0,
                waiting: Seq::empty(),
                tables: Seq::empty(),
                ttls: Map::empty(),
                ..old(self)@
            }),
            texts(r@) == Seq::new(old(self)@.tables.len(), |i: int| old(self)@.tables[i].path),
    {
        let mut gone: Vec<String> = Vec::new();
        let ghost before = self@;
        let mut i: usize = 0;
        while i < self.sstables.len()
            invariant
                i <= self.sstables@.len(),
                self@ == before,
                texts(gone@) == Seq::new(i as nat, |j: int| before.tables[j].path),
            decreases self.sstables@.len() - i,
        {
            assert(before.tables[i as int] == self.sstables@[i as int]@);
            let ghost held = texts(gone@);
            gone.push(self.sstables[i].path().to_owned());
            assert(texts(gone@) =~= held.push(before.tables[i as int].path));
            i = i + 1;
        }
        self.memtable = MemTable::new();
        self.imm_memtables = Vec::new();
        self.sstables = Vec::new();
        self.ttls = HashMap::new();
        proof {
            assert(iterator::mems_view(self.imm_memtables@) =~= Seq::empty());
            assert(iterator::tables_view(self.sstables@) =~= Seq::empty());
            assert(self.memtable@ =~= Map::empty());
        }
        gone
    }

    pub fn set_memtable_limit(&mut self, max_bytes: usize)
        requires
            old(self).wf(),
        ensures
            final(self).wf(),
            final(self).spec_config() == old(self).spec_config(),
            final(self).spec_compression() == old(self).spec_compression(),
            final(self)@ == (EngineView { limit: max_bytes, ..old(self)@ }),
    {
        self.memtable_limit_bytes = max_bytes;
    }

    pub fn set_compression_type(&mut self, c_type: CompressionType)
        requires
            old(self).wf(),
        ensures
            final(self).wf(),
            final(self).spec_config() == old(self).spec_config(),
            final(self).spec_compression() == c_type,
            final(self)@ == old(self)@,
    {
        self.compression_type = c_type;
    }

    pub fn compression_type(&self) -> (r: CompressionType)
        ensures
            r == self.spec_compression(),
    {
        self.compression_type
    }

    pub fn next_seq(&self) -> (r: u64)
        ensures
            r == self@.next_seq,
    {
        self.wal.next_seq()
    }

    pub fn config(&self) -> (r: &EngineConfig)
        ensures
            *r == self.spec_config(),
    {
        &self.config
    }

    /// The log, which decides when records are written together.
    pub fn wal(&self) -> (r: &WalWriter)
        ensures
            r.spec_next_seq() == self@.next_seq,
            self.wf() ==> r.spec_config() == self.spec_config().wal_config,
    {
        &self.wal
    }
}

proof fn lemma_listed_len(s: Seq<(u128, EntryView)>, m: Map<u128, EntryView>)
    requires
        memtable::lists_range(s, m, None, None),
        m.dom().finite(),
    ensures
        s.len() == 0 <==> m.len() == 0,
{
    if s.len() == 0 {
        assert forall|k: u128| !m.dom().contains(k) by {
            if m.contains_key(k) {
                assert(sstable::in_range(k, None, None));
                let i = choose|i: int| 0 <= i < s.len() && (#[trigger] s[i]).0 == k;
            }
        }
        assert(m.dom() =~= Set::empty());
    } else {
        assert(m.contains_key(s[0].0));
        assert(m.dom().contains(s[0].0));
        if m.len() == 0 {
            assert(m.dom() =~= Set::empty());
        }
    }
}

} // verus!
