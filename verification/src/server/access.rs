//! Reading from the tables of a server, and the documents that show what was read.
use bytes::Bytes;
use vstd::prelude::*;
use vstd::utf8::*;

use crate::index::json::{JsonValue, JsonView};
use crate::index::json;
use crate::index::query::{ExpressionView, QueryFilter};
use crate::index::query;
use crate::index::secondary;
use crate::proto::reply;
use crate::server::outside::{Outside, World};
use crate::storage::engine::EngineView;
use crate::storage::{documents, engine, iterator, order, sstable};
use crate::table::manager::{ManagerView, Table, TableState};
use crate::table::manager;
use crate::table::names::KeyNames;
use crate::table::names;
use crate::text;
use crate::types::{ErrorView, PlayerId, Result};
use crate::wire;

verus! {

// ---------------------------------------------------------------------------------------------
// Reading from a table
// ---------------------------------------------------------------------------------------------
/// The table with a name.
pub open spec fn table_of(m: ManagerView, name: Seq<char>) -> Option<TableState> {
    match manager::table_place(m.tables, name) {
        Some(i) => Some(m.tables[i]),
        None => None,
    }
}

/// What a read of a key in a table may give.
pub open spec fn read_gives(
    t: TableState,
    w: World,
    key: u128,
    now_secs: u64,
    got: core::result::Result<Option<Seq<u8>>, ErrorView>,
) -> bool {
    engine::value_gives(w.reads_of(t.name), t.engine, key, now_secs, got)
}

/// The reply to GET, given what was read.
pub open spec fn get_reply(got: core::result::Result<Option<Seq<u8>>, ErrorView>) -> Seq<u8> {
    match got {
        Ok(v) => reply::value_reply(v),
        Err(e) => reply::failure(e),
    }
}

/// What reading some keys may give, one after the other.
pub open spec fn keys_give(
    t: TableState,
    w: World,
    keys: Seq<u128>,
    now_secs: u64,
    got: Seq<core::result::Result<Option<Seq<u8>>, ErrorView>>,
) -> bool {
    &&& got.len() == keys.len()
    &&& forall|i: int| 0 <= i < got.len() ==> read_gives(t, w, keys[i], now_secs, #[trigger] got[i])
}

/// Values, one by one; nothing stands for a value that could not be read.
pub open spec fn values_reply(
    got: Seq<core::result::Result<Option<Seq<u8>>, ErrorView>>,
) -> Seq<u8>
    decreases got.len(),
{
    if got.len() == 0 {
        Seq::empty()
    } else {
        values_reply(got.drop_last()) + match got.last() {
            Ok(v) => reply::value_reply(v),
            Err(_) => reply::nil(),
        }
    }
}

/// The reply to MGET, given what was read.
pub open spec fn mget_reply(
    got: Seq<core::result::Result<Option<Seq<u8>>, ErrorView>>,
) -> Seq<u8> {
    reply::line("*"@ + text::dec_text(got.len())) + values_reply(got)
}

/// The number of keys that hold a value, given what was read.
pub open spec fn existing(got: Seq<core::result::Result<Option<Seq<u8>>, ErrorView>>) -> nat
    decreases got.len(),
{
    if got.len() == 0 {
        0
    } else {
        existing(got.drop_last()) + if engine::is_there(got.last()) {
            1nat
        } else {
            0nat
        }
    }
}

/// What asking whether a key of a table is known to hold a value may give.
pub open spec fn there_gives(t: TableState, w: World, key: u128, now_secs: u64, r: bool) -> bool {
    engine::holds_gives(w.reads_of(t.name), t.engine, key, now_secs, r)
}

/// What asking for the seconds until a key expires may give.
pub open spec fn ttl_gives(t: TableState, w: World, key: u128, now_secs: u64, r: int) -> bool {
    exists|there: bool| #[trigger]
        there_gives(t, w, key, now_secs, there) && r == engine::time_left(
            t.engine.ttls,
            key,
            now_secs,
            there,
        )
}

/// What a scan of a table may give.
pub open spec fn scan_gives(
    t: TableState,
    w: World,
    start: Option<PlayerId>,
    end: Option<PlayerId>,
    limit: nat,
    now_secs: u64,
    got: core::result::Result<Seq<(u128, Seq<u8>)>, ErrorView>,
) -> bool {
    engine::scan_gives(w.reads_of(t.name), t.engine, start, end, limit, now_secs, got)
}

/// What reading all records of a table, as far as one query looks, may give.
pub open spec fn records_give(
    t: TableState,
    w: World,
    now_secs: u64,
    got: core::result::Result<Seq<(u128, Seq<u8>)>, ErrorView>,
) -> bool {
    scan_gives(t, w, None, None, documents::SCAN_LIMIT as nat, now_secs, got)
}

proof fn lemma_there_within(
    a: sstable::Reads,
    b: sstable::Reads,
    v: EngineView,
    key: u128,
    now_secs: u64,
    there: bool,
)
    requires
        sstable::within(a, b),
        engine::holds_gives(a, v, key, now_secs, there),
    ensures
        engine::holds_gives(b, v, key, now_secs, there),
{
    let got = choose|got: core::result::Result<Option<Seq<u8>>, ErrorView>| #[trigger]
        engine::value_gives(a, v, key, now_secs, got) && there == engine::is_there(got);
    engine::lemma_value_within(a, b, v, key, now_secs, got);
}

impl<
    R: Fn(&str, u64, u64, u64) -> Result<Vec<u8>>,
    D: Fn(&str) -> u64,
    N: Fn(u64, u64) -> Option<bool>,
    H: Fn(u64) -> String,
> Outside<R, D, N, H> {
    /// Reads the value under a key of a table.
    pub fn get(&self, table: &Table, key: &PlayerId, now_secs: u64) -> (r: Result<Option<Bytes>>)
        requires
            self.usable(),
            table.wf(),
        ensures
            read_gives(table@, self.world(), key.0, now_secs, engine::read_view(r)),
    {
        let name = table.name.as_str();
        let read = |id: u64, offset: u64, len: u64| -> (out: Result<Vec<u8>>)
            ensures
                call_ensures(self.read, (name, id, offset, len), out),
            { (self.read)(name, id, offset, len) };
        let r = table.engine.get(key, now_secs, &read);
        proof {
            self.lemma_reader(read, name);
            engine::lemma_value_within(
                sstable::outcomes(read),
                self.world().reads_of(name@),
                table@.engine,
                key.0,
                now_secs,
                engine::read_view(r),
            );
        }
        r
    }

    /// Whether a key of a table is known to hold a value.
    pub fn exists_in(&self, table: &Table, key: &PlayerId, now_secs: u64) -> (r: bool)
        requires
            self.usable(),
            table.wf(),
        ensures
            there_gives(table@, self.world(), key.0, now_secs, r),
    {
        let got = self.get(table, key, now_secs);
        assert(read_gives(table@, self.world(), key.0, now_secs, engine::read_view(got)));
        match got {
            Ok(Some(_)) => true,
            _ => false,
        }
    }

    /// The seconds until a key of a table expires.
    pub fn ttl(&self, table: &Table, key: &PlayerId, now_secs: u64) -> (r: i64)
        requires
            self.usable(),
            table.wf(),
        ensures
            ttl_gives(table@, self.world(), key.0, now_secs, r as int),
    {
        let name = table.name.as_str();
        let read = |id: u64, offset: u64, len: u64| -> (out: Result<Vec<u8>>)
            ensures
                call_ensures(self.read, (name, id, offset, len), out),
            { (self.read)(name, id, offset, len) };
        let r = table.engine.get_ttl(key, now_secs, &read);
        proof {
            self.lemma_reader(read, name);
            let can = sstable::outcomes(read);
            let there = choose|there: bool| #[trigger]
                engine::holds_gives(can, table@.engine, key.0, now_secs, there) && r
                    == engine::time_left(table@.engine.ttls, key.0, now_secs, there);
            lemma_there_within(
                can,
                self.world().reads_of(name@),
                table@.engine,
                key.0,
                now_secs,
                there,
            );
            assert(there_gives(table@, self.world(), key.0, now_secs, there));
        }
        r
    }

    /// Lets a key of a table expire.
    pub fn expire(&self, table: &mut Table, key: &PlayerId, seconds: u64, now_secs: u64) -> (r: bool)
        requires
            self.usable(),
            old(table).wf(),
        ensures
            final(table).wf(),
            there_gives(old(table)@, self.world(), key.0, now_secs, r),
            final(table)@ == (if r {
                expiring(old(table)@, key.0, seconds, now_secs)
            } else {
                old(table)@
            }),
    {
        let own = table.name.as_str().to_owned();
        let name = own.as_str();
        let read = |id: u64, offset: u64, len: u64| -> (out: Result<Vec<u8>>)
            ensures
                call_ensures(self.read, (name, id, offset, len), out),
            { (self.read)(name, id, offset, len) };
        let ghost before = table@;
        let r = table.engine.set_expire(key, seconds, now_secs, &read);
        proof {
            self.lemma_reader(read, name);
            lemma_there_within(
                sstable::outcomes(read),
                self.world().reads_of(name@),
                before.engine,
                key.0,
                now_secs,
                r,
            );
        }
        r
    }

    /// The records of a table within bounds.
    pub fn scan(
        &self,
        table: &Table,
        start: Option<PlayerId>,
        end: Option<PlayerId>,
        limit: usize,
        now_secs: u64,
    ) -> (r: Result<Vec<(PlayerId, Bytes)>>)
        requires
            self.usable(),
            table.wf(),
        ensures
            scan_gives(
                table@,
                self.world(),
                start,
                end,
                limit as nat,
                now_secs,
                iterator::pairs_result(r),
            ),
    {
        let name = table.name.as_str();
        let read = |id: u64, offset: u64, len: u64| -> (out: Result<Vec<u8>>)
            ensures
                call_ensures(self.read, (name, id, offset, len), out),
            { (self.read)(name, id, offset, len) };
        let r = table.engine.scan(start, end, limit, now_secs, &read);
        proof {
            self.lemma_reader(read, name);
            engine::lemma_scan_within(
                sstable::outcomes(read),
                self.world().reads_of(name@),
                table@.engine,
                start,
                end,
                limit as nat,
                now_secs,
                iterator::pairs_result(r),
            );
        }
        r
    }

    /// Makes an index of a table's field over the records that the table holds, unless there is
    /// one. Where the records cannot be read there is none.
    pub fn create_index(&self, table: &mut Table, path: &str, now_secs: u64) -> (r: Result<()>)
        requires
            self.usable(),
            old(table).wf(),
        ensures
            final(table).wf(),
            final(table)@ == (TableState { indices: final(table)@.indices, ..old(table)@ }),
            exists|made: core::result::Result<TableState, ErrorView>| #[trigger]
                index_gives(old(table)@, self.world(), path@, now_secs, made) && match made {
                    Ok(t) => r is Ok && final(table)@ == t,
                    Err(e) => r matches Err(err) && err@ == e && final(table)@ == old(table)@,
                },
    {
        let ghost w = self.world();
        let ghost before = table@;
        if table.index_manager.get_index(path).is_some() {
            assert(index_gives(before, w, path@, now_secs, Ok(before)));
            return Ok(());
        }
        let scanned = self.scan(table, None, None, usize::MAX, now_secs);
        proof {
            let got = iterator::pairs_result(scanned);
            assert(scan_gives(before, w, None, None, usize::MAX as nat, now_secs, got));
            assert(index_gives(before, w, path@, now_secs, indexed(before, path@, got)));
        }
        match scanned {
            Err(e) => Err(e),
            Ok(records) => {
                table.index_manager.create_index_over(path, &records);
                Ok(())
            },
        }
    }

    /// The number of records of a table that meet a filter.
    pub fn count(&self, table: &Table, filter: Option<&QueryFilter>, now_secs: u64) -> (r: Result<
        usize,
    >)
        requires
            self.usable(),
            table.wf(),
        ensures
            exists|got: core::result::Result<Seq<(u128, Seq<u8>)>, ErrorView>| #[trigger]
                records_give(table@, self.world(), now_secs, got) && match got {
                    Err(e) => r matches Err(err) && err@ == e,
                    Ok(s) => r matches Ok(n) && n == documents::matching(
                        s,
                        documents::filter_view(filter),
                        self.world().near,
                    ).len(),
                },
    {
        let name = table.name.as_str();
        let read = |id: u64, offset: u64, len: u64| -> (out: Result<Vec<u8>>)
            ensures
                call_ensures(self.read, (name, id, offset, len), out),
            { (self.read)(name, id, offset, len) };
        let r = table.engine.count_records(filter, now_secs, &self.near, &read);
        proof {
            self.lemma_reader(read, name);
            let can = sstable::outcomes(read);
            let got = choose|got: core::result::Result<Seq<(u128, Seq<u8>)>, ErrorView>| #[trigger]
                documents::records_give(can, table@.engine, now_secs, got) && match got {
                    Err(e) => r matches Err(err) && err@ == e,
                    Ok(s) => r matches Ok(n) && n == documents::matching(
                        s,
                        documents::filter_view(filter),
                        query::answers(self.near),
                    ).len(),
                };
            engine::lemma_scan_within(
                can,
                self.world().reads_of(name@),
                table@.engine,
                None,
                None,
                documents::SCAN_LIMIT as nat,
                now_secs,
                got,
            );
            assert(records_give(table@, self.world(), now_secs, got));
        }
        r
    }

    /// The number of active records of a table; none where they cannot be read.
    pub fn total_entries(&self, table: &Table) -> (r: Option<u64>)
        requires
            self.usable(),
            table.wf(),
        ensures
            total_gives(table@, self.world(), r),
    {
        let name = table.name.as_str();
        let read = |id: u64, offset: u64, len: u64| -> (out: Result<Vec<u8>>)
            ensures
                call_ensures(self.read, (name, id, offset, len), out),
            { (self.read)(name, id, offset, len) };
        let r = table.engine.total_entries(&read);
        proof {
            self.lemma_reader(read, name);
            engine::lemma_count_within(
                sstable::outcomes(read),
                self.world().reads_of(name@),
                table@.engine,
                engine::number_view(r),
            );
            assert(engine::count_gives(
                self.world().reads_of(table@.name),
                table@.engine,
                engine::number_view(r),
            ));
            if let Ok(n) = r {
                assert((n as nat) as u64 == n);
            }
        }
        match r {
            Ok(n) => Some(n),
            Err(_) => None,
        }
    }

    /// The document under a key of a table with one field set.
    pub fn json_updated(
        &self,
        table: &Table,
        key: &PlayerId,
        path: &str,
        raw: &str,
        now_secs: u64,
    ) -> (r: Result<Bytes>)
        requires
            self.usable(),
            table.wf(),
        ensures
            exists|got: core::result::Result<Option<Seq<u8>>, ErrorView>| #[trigger]
                read_gives(table@, self.world(), key.0, now_secs, got) && documents::updates(
                    got,
                    path@,
                    raw@,
                    r,
                ),
    {
        let got = self.get(table, key, now_secs);
        assert(read_gives(table@, self.world(), key.0, now_secs, engine::read_view(got)));
        match got {
            Err(e) => Err(e),
            Ok(None) => Ok(documents::set_field(None, path, raw)),
            Ok(Some(b)) => Ok(documents::set_field(Some(&*b), path, raw)),
        }
    }
}

/// What counting the active records of a table may give: none where they cannot be read.
pub open spec fn total_gives(t: TableState, w: World, r: Option<u64>) -> bool {
    exists|n: core::result::Result<nat, ErrorView>| #[trigger]
        engine::count_gives(w.reads_of(t.name), t.engine, n) && r == (match n {
            Ok(n) => Some(n as u64),
            Err(_) => None,
        })
}

/// A number of records in a document: nothing where they could not be counted.
pub open spec fn records_json(n: Option<u64>) -> JsonView {
    match n {
        Some(n) => reply::count(n as nat),
        None => JsonView::Null,
    }
}

pub fn records_value(n: Option<u64>) -> (r: JsonValue)
    ensures
        json::doc_ok(r),
        r@ == records_json(n),
{
    match n {
        Some(n) => JsonValue::from_u64(n),
        None => JsonValue::Null,
    }
}

/// A table with a new index of a field over all its records, given what reading them gave.
pub open spec fn indexed(
    t: TableState,
    path: Seq<char>,
    got: core::result::Result<Seq<(u128, Seq<u8>)>, ErrorView>,
) -> core::result::Result<TableState, ErrorView> {
    match got {
        Err(e) => Err(e),
        Ok(s) => Ok(TableState { indices: t.indices.push(secondary::filled(path, s)), ..t }),
    }
}

/// What making an index of a table's field may give: the table with it, as it was where there is one.
pub open spec fn index_gives(
    t: TableState,
    w: World,
    path: Seq<char>,
    now_secs: u64,
    made: core::result::Result<TableState, ErrorView>,
) -> bool {
    match secondary::index_place(t.indices, path) {
        Some(_) => made == Ok::<TableState, ErrorView>(t),
        None => exists|got: core::result::Result<Seq<(u128, Seq<u8>)>, ErrorView>| #[trigger]
            scan_gives(t, w, None, None, usize::MAX as nat, now_secs, got) && made == indexed(
                t,
                path,
                got,
            ),
    }
}

/// A new index ranks a key exactly where a read of the key gives a document with a number at the
/// index's field, and with that number.
pub proof fn law_new_index_ranks_what_is_read(
    t: TableState,
    w: World,
    files: spec_fn(u64) -> sstable::FileView,
    path: Seq<char>,
    now_secs: u64,
    made: core::result::Result<TableState, ErrorView>,
    key: u128,
    value: Seq<u8>,
)
    requires
        sstable::within(w.reads_of(t.name), sstable::fixed(files)),
        order::newest_first(t.engine, files),
        secondary::index_place(t.indices, path) is None,
        iterator::scan_sources(
            t.engine.memory,
            t.engine.waiting,
            t.engine.tables,
            files,
            None,
            None,
        ) matches Ok(src) && iterator::live(iterator::merged(src)).len() <= usize::MAX,
        read_gives(t, w, key, now_secs, Ok(Some(value))),
        index_gives(t, w, path, now_secs, made),
    ensures
        made matches Ok(after) && after.indices.last().path == path && (match secondary::extracted(
            path,
            value,
        ) {
            Some(bits) if !json::is_nan(bits) => after.indices.last().scores.contains_key(key)
                && after.indices.last().scores[key] == bits,
            _ => !after.indices.last().scores.contains_key(key),
        }),
{
    let all = usize::MAX as nat;
    let can = w.reads_of(t.name);
    engine::lemma_value_fixed(can, files, t.engine, key, now_secs, Ok(Some(value)));
    let got = choose|got: core::result::Result<Seq<(u128, Seq<u8>)>, ErrorView>| #[trigger]
        scan_gives(t, w, None, None, all, now_secs, got) && made == indexed(t, path, got);
    engine::lemma_scan_fixed(can, files, t.engine, None, None, all, now_secs, got);
    order::law_scan_gives_what_reads_give(
        t.engine,
        files,
        None,
        None,
        all,
        now_secs,
        key,
        value,
    );
    let s = engine::scan_of(t.engine, files, None, None, all, now_secs)->Ok_0;
    assert forall|i: int, j: int| 0 <= i < j < s.len() implies (#[trigger] s[i]).0 != (
    #[trigger] s[j]).0 by {}
    secondary::law_new_index_ranks_all_records(path, s, key);
    let i = choose|i: int| 0 <= i < s.len() && s[i] == (key, value);
    assert(s[i].0 == key);
    assert(t.indices.push(secondary::filled(path, s)).last() == secondary::filled(path, s));
    if secondary::filled(path, s).scores.contains_key(key) {
        let j = choose|j: int|
            0 <= j < s.len() && (#[trigger] s[j]).0 == key && secondary::extracted(path, s[j].1)
                == Some(secondary::filled(path, s).scores[key]);
        assert(i == j);
    }
}

/// A table in which a key expires after some seconds.
pub open spec fn expiring(t: TableState, key: u128, seconds: u64, now_secs: u64) -> TableState {
    TableState {
        engine: EngineView {
            ttls: t.engine.ttls.insert(key, now_secs.wrapping_add(seconds)),
            ..t.engine
        },
        ..t
    }
}

// ---------------------------------------------------------------------------------------------
// Documents that show records
// ---------------------------------------------------------------------------------------------
/// The text of bytes in which what is not UTF-8 is replaced.
pub uninterp spec fn replaced_text(bytes: Seq<u8>) -> Seq<char>;

/// The text of bytes that should be UTF-8; what is not is replaced.
pub open spec fn lossy_text(bytes: Seq<u8>) -> Seq<char> {
    if valid_utf8(bytes) {
        decode_utf8(bytes)
    } else {
        replaced_text(bytes)
    }
}

/// `String::from_utf8_lossy` is determined by the bytes, and is the text that UTF-8 encodes. What
/// it makes of other bytes has no short statement.
#[verifier::external_body]
pub(crate) fn to_text_lossy(bytes: &[u8]) -> (r: String)
    ensures
        r@ == replaced_text(bytes@),
        valid_utf8(bytes@) ==> r@ == decode_utf8(bytes@),
{
    std::string::String::from_utf8_lossy(bytes).into_owned()
}

/// The document that shows some bytes: what they spell, or else their text.
pub open spec fn data_of(bytes: Seq<u8>) -> JsonView {
    match json::parsed_json(encode_utf8(lossy_text(bytes))) {
        Some(v) => v,
        None => JsonView::String(lossy_text(bytes)),
    }
}

/// The document that shows some bytes.
pub fn data_value(bytes: &[u8]) -> (r: JsonValue)
    ensures
        json::doc_ok(r),
        r@ == data_of(bytes@),
{
    let t = to_text_lossy(bytes);
    match JsonValue::parse(t.as_str().as_bytes()) {
        Some(v) => v,
        None => JsonValue::String(t),
    }
}

/// A record as a document. Its key is shown as it was written.
pub open spec fn record_row(e: (u128, Seq<u8>), texts: Map<u128, Seq<char>>) -> JsonView {
    JsonView::Object(
        reply::no_fields().insert("uuid"@, JsonView::String(names::shown(texts, e.0))).insert(
            "data"@,
            data_of(e.1),
        ),
    )
}

/// Records as a document.
pub open spec fn record_list(s: Seq<(u128, Seq<u8>)>, texts: Map<u128, Seq<char>>) -> JsonView {
    JsonView::Array(Seq::new(s.len(), |i: int| record_row(s[i], texts)))
}

/// Makes the document of some records.
pub fn record_array(rows: &Vec<(PlayerId, Bytes)>, texts: &KeyNames) -> (r: JsonValue)
    ensures
        json::doc_ok(r),
        r@ == record_list(iterator::pairs_view(rows@), texts@),
{
    let ghost rv = iterator::pairs_view(rows@);
    let mut out: Vec<JsonValue> = Vec::new();
    let mut i: usize = 0;
    while i < rows.len()
        invariant
            i <= rows@.len(),
            out@.len() == i,
            rv == iterator::pairs_view(rows@),
            forall|j: int|
                0 <= j < i ==> json::doc_ok(#[trigger] out@[j]) && out@[j]@ == record_row(
                    rv[j],
                    texts@,
                ),
        decreases rows@.len() - i,
    {
        assert(rv[i as int] == (rows@[i as int].0.0, wire::bytes_view(rows@[i as int].1)));
        let row = query::with_field(
            reply::new_object(),
            "uuid",
            JsonValue::from_text(texts.shown(&rows[i].0).as_str()),
        );
        let row = query::with_field(row, "data", data_value(&*rows[i].1));
        out.push(row);
        i = i + 1;
    }
    proof {
        reply::lemma_items(out@);
        assert(json::items_view(out@) =~= Seq::new(rv.len(), |i: int| record_row(rv[i], texts@)));
    }
    JsonValue::Array(out)
}

/// The first records that meet a filter.
pub fn first_matching<N: Fn(u64, u64) -> Option<bool>>(
    all: &Vec<(PlayerId, Bytes)>,
    filter: &QueryFilter,
    limit: usize,
    near: &N,
) -> (r: Vec<(PlayerId, Bytes)>)
    requires
        query::can_compare(*near),
    ensures
        iterator::pairs_view(r@) == iterator::first(
            documents::matching(
                iterator::pairs_view(all@),
                Some(filter@),
                query::answers(*near),
            ),
            limit as nat,
        ),
{
    let ghost view = iterator::pairs_view(all@);
    let mut out: Vec<(PlayerId, Bytes)> = Vec::new();
    let mut i: usize = 0;
    assert(view.take(0) =~= Seq::empty());
    assert(iterator::pairs_view(out@) =~= Seq::empty());
    while i < all.len() && out.len() < limit
        invariant
            i <= all@.len(),
            out@.len() <= limit,
            view == iterator::pairs_view(all@),
            query::can_compare(*near),
            iterator::pairs_view(out@) == documents::matching(
                view.take(i as int),
                Some(filter@),
                query::answers(*near),
            ),
        decreases all@.len() - i,
    {
        let ghost held = iterator::pairs_view(out@);
        proof {
            assert(view.take(i + 1).drop_last() =~= view.take(i as int));
            assert(view.take(i + 1).last() == view[i as int]);
        }
        if filter.matches(&*all[i].1, near) {
            out.push((all[i].0, all[i].1.clone()));
            assert(iterator::pairs_view(out@) =~= held.push(view[i as int]));
        }
        i = i + 1;
    }
    proof {
        let model = query::answers(*near);
        lemma_matching_prefix(view, Some(filter@), model, i as int);
        let all_of_them = documents::matching(view, Some(filter@), model);
        let so_far = documents::matching(view.take(i as int), Some(filter@), model);
        if i == all@.len() {
            assert(view.take(i as int) =~= view);
            assert(all_of_them.take(all_of_them.len() as int) =~= all_of_them);
        } else {
            assert(so_far.len() == limit);
            assert(all_of_them.take(limit as int) =~= so_far);
            if all_of_them.len() <= limit {
                assert(all_of_them =~= so_far);
            }
        }
    }
    out
}

proof fn lemma_matching_prefix(
    s: Seq<(u128, Seq<u8>)>,
    filter: Option<ExpressionView>,
    near: spec_fn(u64, u64) -> Option<bool>,
    n: int,
)
    requires
        0 <= n <= s.len(),
    ensures
        ({
            let all = documents::matching(s, filter, near);
            let part = documents::matching(s.take(n), filter, near);
            part.len() <= all.len() && all.take(part.len() as int) == part
        }),
    decreases s.len(),
{
    let part = documents::matching(s.take(n), filter, near);
    if n == s.len() {
        assert(s.take(n) =~= s);
        assert(part.take(part.len() as int) =~= part);
    } else {
        lemma_matching_prefix(s.drop_last(), filter, near, n);
        assert(s.drop_last().take(n) =~= s.take(n));
        let rest = documents::matching(s.drop_last(), filter, near);
        assert(rest.push(s.last()).take(part.len() as int) =~= rest.take(part.len() as int));
    }
}

} // verus!
