//! The HTTP server: what a request is answered.
use vstd::prelude::*;
use vstd::utf8::encode_utf8;

use crate::index::json::{JsonValue, JsonView};
use crate::index::json;
use crate::index::query;
use crate::index::secondary;
use crate::proto::reply;
use crate::server::access;
use crate::server::outside::{Outside, World};
use crate::server::tcp;
use crate::storage::engine;
use crate::table::manager::{ManagerView, Table, TableManager, TableState};
use crate::table::manager;
use crate::text;
use crate::types::{DbError, ErrorView, PlayerId, Result};
use crate::types;

verus! {

// ---------------------------------------------------------------------------------------------
// Requests
// ---------------------------------------------------------------------------------------------
/// What a request asks for: a path and the parameters behind it.
pub struct Request {
    pub path: String,
    pub query: String,
}

/// A request, by views.
pub struct RequestView {
    pub path: Seq<char>,
    pub query: Seq<char>,
}

impl View for Request {
    type V = RequestView;

    open spec fn view(&self) -> RequestView {
        RequestView { path: self.path@, query: self.query@ }
    }
}

/// The text before the first line feed.
pub open spec fn first_line(s: Seq<char>) -> Seq<char> {
    match text::place_of(s, "\n"@, 0) {
        Some(i) => s.take(i),
        None => s,
    }
}

/// The second word of the first line, which names what is asked for.
pub open spec fn target_of(s: Seq<char>) -> Seq<char> {
    let w = text::words(first_line(s));
    if w.len() > 1 {
        w[1]
    } else {
        "/"@
    }
}

/// A target up to its question mark, and what follows.
pub open spec fn request_of(target: Seq<char>) -> RequestView {
    match text::place_of(target, "?"@, 0) {
        Some(i) => RequestView { path: target.take(i), query: target.skip(i + 1) },
        None => RequestView { path: target, query: Seq::empty() },
    }
}

/// The first of some parameters with a name.
pub open spec fn param_in(pairs: Seq<Seq<char>>, key: Seq<char>) -> Option<Seq<char>>
    decreases pairs.len(),
{
    if pairs.len() == 0 {
        None
    } else {
        let kv = text::pieces_up_to(pairs[0], "="@, 2);
        if kv.len() > 1 && kv[0] == key {
            Some(kv[1])
        } else {
            param_in(pairs.skip(1), key)
        }
    }
}

/// The parameter with a name.
pub open spec fn param(query: Seq<char>, key: Seq<char>) -> Option<Seq<char>> {
    param_in(text::pieces(query, "&"@), key)
}

/// The parameter with a name; empty where it is missing.
pub open spec fn param_text(query: Seq<char>, key: Seq<char>) -> Seq<char> {
    match param(query, key) {
        Some(v) => v,
        None => Seq::empty(),
    }
}

/// The number that a parameter gives, or another.
pub open spec fn param_number(query: Seq<char>, key: Seq<char>, max: nat, other: nat) -> nat {
    match param(query, key) {
        Some(v) => match text::parsed_number(v, max) {
            Some(n) => n,
            None => other,
        },
        None => other,
    }
}

/// Reads the beginning of a request.
pub fn read_request(bytes: &[u8]) -> (r: Request)
    ensures
        r@ == request_of(target_of(access::lossy_text(bytes@))),
{
    let all = access::to_text_lossy(bytes);
    parse_request(all.as_str())
}

/// Reads the text of a request.
pub fn parse_request(all: &str) -> (r: Request)
    ensures
        r@ == request_of(target_of(all@)),
{
    let chars = text::chars_of(all);
    let feed = text::chars_of("\n");
    let n: usize = match text::find(&chars, &feed) {
        Some(i) => i,
        None => chars.len(),
    };
    proof {
        text::lemma_place_of(chars@, "\n"@, 0);
        assert(chars@.subrange(0, n as int) =~= first_line(chars@));
    }
    let words = text::split_words(&chars[0..n]);
    let ghost wv = text::pieces_view(words@);
    let target = if words.len() > 1 {
        text::string_of(&words[1])
    } else {
        "/".to_owned()
    };
    read_target(target.as_str())
}

fn read_target(target: &str) -> (r: Request)
    ensures
        r@ == request_of(target@),
{
    let chars = text::chars_of(target);
    let mark = text::chars_of("?");
    let n: usize = chars.len();
    match text::find(&chars, &mark) {
        Some(i) => {
            proof {
                reveal_strlit("?");
                text::lemma_place_of(chars@, "?"@, 0);
                assert(chars@.subrange(0, i as int) =~= chars@.take(i as int));
                assert(chars@.subrange(i + 1, n as int) =~= chars@.skip(i + 1));
            }
            Request { path: text::string_of(&chars[0..i]), query: text::string_of(&chars[i + 1..n]) }
        },
        None => {
            let none: Vec<char> = Vec::new();
            assert(none@ =~= Seq::empty());
            Request { path: target.to_owned(), query: text::string_of(&none) }
        },
    }
}

/// The parameter with a name.
pub fn extract_query_param(query: &str, key: &str) -> (r: Option<String>)
    ensures
        match r {
            Some(v) => param(query@, key@) == Some(v@),
            None => param(query@, key@) is None,
        },
{
    let chars = text::chars_of(query);
    let and = text::chars_of("&");
    let equals = text::chars_of("=");
    proof {
        reveal_strlit("&");
    }
    let pairs = text::split(&chars, &and);
    let ghost pv = text::pieces_view(pairs@);
    let mut i: usize = 0;
    assert(pv.skip(0) =~= pv);
    while i < pairs.len()
        invariant
            i <= pairs@.len(),
            pv == text::pieces_view(pairs@),
            pv == text::pieces(query@, "&"@),
            equals@ == "="@,
            param_in(pv, key@) == param_in(pv.skip(i as int), key@),
        decreases pairs@.len() - i,
    {
        proof {
            assert(pv.skip(i as int)[0] == pairs@[i as int]@);
            assert(pv.skip(i as int).skip(1) =~= pv.skip(i + 1));
        }
        let kv = text::split_up_to(&pairs[i], &equals, 2);
        if kv.len() > 1 {
            let k = text::string_of(&kv[0]);
            if text::text_eq(k.as_str(), key) {
                return Some(text::string_of(&kv[1]));
            }
        }
        i = i + 1;
    }
    None
}

fn text_param(query: &str, key: &str) -> (r: String)
    ensures
        r@ == param_text(query@, key@),
{
    match extract_query_param(query, key) {
        Some(v) => v,
        None => {
            let none: Vec<char> = Vec::new();
            assert(none@ =~= Seq::empty());
            text::string_of(&none)
        },
    }
}

fn number_param(query: &str, key: &str, max: u64, other: u64) -> (r: u64)
    requires
        other <= max,
    ensures
        r == param_number(query@, key@, max as nat, other as nat),
        r <= max,
{
    match extract_query_param(query, key) {
        Some(v) => {
            let chars = text::chars_of(v.as_str());
            match text::parse_u64(&chars) {
                Some(n) => if n <= max {
                    n
                } else {
                    other
                },
                None => other,
            }
        },
        None => other,
    }
}

// ---------------------------------------------------------------------------------------------
// Responses
// ---------------------------------------------------------------------------------------------
/// A response.
pub struct Response {
    pub status: &'static str,
    pub content_type: &'static str,
    pub body: String,
}

/// A response, by views.
pub struct ResponseView {
    pub status: Seq<char>,
    pub content_type: Seq<char>,
    pub body: Seq<char>,
}

impl View for Response {
    type V = ResponseView;

    open spec fn view(&self) -> ResponseView {
        ResponseView {
            status: self.status@,
            content_type: self.content_type@,
            body: self.body@,
        }
    }
}

/// The bytes of a response: a head that ends the connection, then the body.
pub open spec fn response_bytes(r: ResponseView) -> Seq<u8> {
    encode_utf8(
        "HTTP/1.1 "@ + r.status + "\r\nContent-Type: "@ + r.content_type
            + "\r\nContent-Length: "@ + text::dec_text(encode_utf8(r.body).len())
            + "\r\nAccess-Control-Allow-Origin: *\r\nConnection: close\r\n\r\n"@,
    ) + encode_utf8(r.body)
}

impl Response {
    /// The bytes that are sent.
    pub fn to_bytes(&self) -> (r: Vec<u8>)
        ensures
            r@ == response_bytes(self@),
    {
        let body = self.body.as_str().as_bytes();
        let mut head = "HTTP/1.1 ".to_owned();
        text::push_text(&mut head, self.status);
        text::push_text(&mut head, "\r\nContent-Type: ");
        text::push_text(&mut head, self.content_type);
        text::push_text(&mut head, "\r\nContent-Length: ");
        text::push_text(&mut head, text::to_dec(body.len() as u64).as_str());
        text::push_text(
            &mut head,
            "\r\nAccess-Control-Allow-Origin: *\r\nConnection: close\r\n\r\n",
        );
        let mut out = reply::bytes_of(head.as_str());
        let ghost first = out@;
        out.extend_from_slice(body);
        assert(out@ =~= first + encode_utf8(self.body@));
        out
    }
}

/// A document with a status.
pub open spec fn shows_document(status: Seq<char>, v: JsonView) -> ResponseView {
    ResponseView { status, content_type: "application/json"@, body: json::json_text(v) }
}

/// A document that holds an error.
pub open spec fn error_document(msg: Seq<char>) -> JsonView {
    JsonView::Object(reply::no_fields().insert("error"@, JsonView::String(msg)))
}

/// The response where a table is missing.
pub open spec fn table_missing() -> ResponseView {
    shows_document("404 Not Found"@, error_document("Table not found"@))
}

/// The response where a key is none.
pub open spec fn bad_key(e: ErrorView) -> ResponseView {
    shows_document(
        "400 Bad Request"@,
        error_document("Invalid UUID: "@ + types::error_text(e)),
    )
}

fn document(status: &'static str, v: &JsonValue) -> (r: Response)
    requires
        json::doc_ok(*v),
    ensures
        r@ == shows_document(status@, v@),
{
    Response { status, content_type: "application/json", body: v.to_text() }
}

fn error(status: &'static str, msg: &str) -> (r: Response)
    ensures
        r@ == shows_document(status@, error_document(msg@)),
{
    let v = query::with_field(reply::new_object(), "error", JsonValue::from_text(msg));
    document(status, &v)
}

fn no_table() -> (r: Response)
    ensures
        r@ == table_missing(),
{
    error("404 Not Found", "Table not found")
}

fn no_key(e: &DbError) -> (r: Response)
    ensures
        r@ == bad_key(e@),
{
    let mut msg = "Invalid UUID: ".to_owned();
    text::push_text(&mut msg, e.to_text().as_str());
    error("400 Bad Request", msg.as_str())
}

// ---------------------------------------------------------------------------------------------
// Endpoints that read
// ---------------------------------------------------------------------------------------------
/// The list of tables, given the total size of their files and its text.
pub open spec fn tables_response(m: ManagerView, total: u64, human: Seq<char>) -> ResponseView {
    shows_document(
        "200 OK"@,
        JsonView::Object(
            reply::no_fields().insert(
                "tables"@,
                reply::text_items(manager::names_of(m.tables)),
            ).insert("total_disk_size_bytes"@, reply::count(total as nat)).insert(
                "total_disk_size_human"@,
                JsonView::String(human),
            ),
        ),
    )
}

/// What the list of tables may be.
pub open spec fn tables_responds(m: ManagerView, w: World, r: ResponseView) -> bool {
    exists|total: u64, human: Seq<char>| #[trigger]
        tcp::total_told(m.tables, w, total) && #[trigger] w.tells_text(total, human) && r
            == tables_response(m, total, human)
}

/// The figures of a table, given some of them and the text of the size of its files.
pub open spec fn stats_response(
    t: TableState,
    fields: Map<Seq<char>, JsonView>,
    human: Seq<char>,
) -> ResponseView {
    shows_document(
        "200 OK"@,
        JsonView::Object(
            fields.insert("status"@, JsonView::String("online"@)).insert(
                "disk_size_human"@,
                JsonView::String(human),
            ).insert(
                "registered_indices"@,
                reply::text_items(secondary::index_paths(t.indices)),
            ),
        ),
    )
}

/// What the text of the size of a table's files may be.
pub open spec fn size_text_told(t: TableState, w: World, human: Seq<char>) -> bool {
    exists|size: u64| #[trigger] w.tells_size(t.name, size) && w.tells_text(size, human)
}

/// What the figures of a table may be.
pub open spec fn stats_responds(t: TableState, w: World, r: ResponseView) -> bool {
    exists|fields: Map<Seq<char>, JsonView>, human: Seq<char>| #[trigger]
        tcp::stats_give(t, w, fields) && #[trigger] size_text_told(t, w, human) && r
            == stats_response(t, fields, human)
}

/// The record under a key that holds a value, given the seconds until the key expires.
pub open spec fn record_response(
    t: TableState,
    key: u128,
    value: Seq<u8>,
    left: int,
) -> ResponseView {
    shows_document(
        "200 OK"@,
        JsonView::Object(
            reply::no_fields().insert("found"@, JsonView::Bool(true)).insert(
                "table"@,
                JsonView::String(t.name),
            ).insert("uuid"@, JsonView::String(types::uuid_text(key))).insert(
                "ttl_seconds"@,
                reply::signed(left),
            ).insert("data"@, access::data_of(value)),
        ),
    )
}

/// What may be shown of a key, given what was read.
pub open spec fn shows_record(
    t: TableState,
    w: World,
    key: u128,
    now_secs: u64,
    got: core::result::Result<Option<Seq<u8>>, ErrorView>,
    r: ResponseView,
) -> bool {
    match got {
        Err(e) => r == shows_document(
            "500 Internal Error"@,
            error_document(types::error_text(e)),
        ),
        Ok(None) => r == shows_document(
            "404 Not Found"@,
            JsonView::Object(
                reply::no_fields().insert("found"@, JsonView::Bool(false)).insert(
                    "error"@,
                    JsonView::String("UUID not found or expired"@),
                ),
            ),
        ),
        Ok(Some(v)) => exists|left: int| #[trigger]
            access::ttl_gives(t, w, key, now_secs, left) && r == record_response(t, key, v, left),
    }
}

/// What the record under a key may be.
pub open spec fn get_responds(
    t: TableState,
    w: World,
    key: u128,
    now_secs: u64,
    r: ResponseView,
) -> bool {
    exists|got: core::result::Result<Option<Seq<u8>>, ErrorView>| #[trigger]
        access::read_gives(t, w, key, now_secs, got) && shows_record(t, w, key, now_secs, got, r)
}

/// Whether a key holds a value.
pub open spec fn exists_response(key: u128, there: bool) -> ResponseView {
    shows_document(
        "200 OK"@,
        JsonView::Object(
            reply::no_fields().insert("uuid"@, JsonView::String(types::uuid_text(key))).insert(
                "exists"@,
                JsonView::Bool(there),
            ),
        ),
    )
}

/// What may be said of whether a key holds a value.
pub open spec fn exists_responds(
    t: TableState,
    w: World,
    key: u128,
    now_secs: u64,
    r: ResponseView,
) -> bool {
    exists|there: bool| #[trigger]
        access::there_gives(t, w, key, now_secs, there) && r == exists_response(key, there)
}

/// The first rows of a ranking.
pub open spec fn top_response(t: TableState, field: Seq<char>, limit: usize) -> ResponseView {
    match secondary::index_place(t.indices, field) {
        None => shows_document(
            "404 Not Found"@,
            error_document("Index '"@ + field + "' is not registered"@),
        ),
        Some(i) => {
            let rows = tcp::top_rows(t.indices[i], limit);
            shows_document(
                "200 OK"@,
                JsonView::Object(
                    reply::no_fields().insert("table"@, JsonView::String(t.name)).insert(
                        "field"@,
                        JsonView::String(field),
                    ).insert("count"@, reply::count(rows.len())).insert(
                        "rankings"@,
                        reply::rank_list(rows, t.names),
                    ),
                ),
            )
        },
    }
}

fn answer_tables<
    R: Fn(&str, u64, u64, u64) -> Result<Vec<u8>>,
    D: Fn(&str) -> u64,
    N: Fn(u64, u64) -> Option<bool>,
    H: Fn(u64) -> String,
>(m: &TableManager, out: &Outside<R, D, N, H>) -> (r: Response)
    requires
        m.wf(),
        out.usable(),
    ensures
        tables_responds(m@, out.world(), r@),
{
    let total: u64 = tcp::total_disk_size_bytes(m, out);
    let human = out.text_of(total);
    assert(tcp::total_told(m@.tables, out.world(), total));
    assert(out.world().tells_text(total, human@));
    let v = query::with_field(
        reply::new_object(),
        "tables",
        reply::text_array(&m.list_tables()),
    );
    let v = query::with_field(v, "total_disk_size_bytes", JsonValue::from_u64(total));
    let v = query::with_field(
        v,
        "total_disk_size_human",
        JsonValue::from_text(human.as_str()),
    );
    document("200 OK", &v)
}

fn answer_stats<
    R: Fn(&str, u64, u64, u64) -> Result<Vec<u8>>,
    D: Fn(&str) -> u64,
    N: Fn(u64, u64) -> Option<bool>,
    H: Fn(u64) -> String,
>(t: &Table, out: &Outside<R, D, N, H>) -> (r: Response)
    requires
        t.wf(),
        out.usable(),
    ensures
        stats_responds(t@, out.world(), r@),
{
    let size: u64 = out.size_of(t.name.as_str());
    let human = out.text_of(size);
    assert(out.world().tells_size(t@.name, size));
    assert(size_text_told(t@, out.world(), human@));
    let list = t.index_manager.list_indices();
    proof {
        assert(engine::texts(list@) =~= secondary::texts_view(list@));
    }
    let fields = tcp::stats_fields(t, out);
    assert(tcp::stats_give(t@, out.world(), fields@->Object_0));
    let v = query::with_field(
        fields,
        "status",
        JsonValue::from_text("online"),
    );
    let v = query::with_field(v, "disk_size_human", JsonValue::from_text(human.as_str()));
    let v = query::with_field(v, "registered_indices", reply::text_array(&list));
    document("200 OK", &v)
}

fn answer_get<
    R: Fn(&str, u64, u64, u64) -> Result<Vec<u8>>,
    D: Fn(&str) -> u64,
    N: Fn(u64, u64) -> Option<bool>,
    H: Fn(u64) -> String,
>(t: &Table, key: &PlayerId, now_secs: u64, out: &Outside<R, D, N, H>) -> (r: Response)
    requires
        t.wf(),
        out.usable(),
    ensures
        get_responds(t@, out.world(), key.0, now_secs, r@),
{
    let got = out.get(t, key, now_secs);
    assert(access::read_gives(t@, out.world(), key.0, now_secs, engine::read_view(got)));
    match got {
        Err(e) => error("500 Internal Error", e.to_text().as_str()),
        Ok(None) => {
            let v = query::with_field(reply::new_object(), "found", JsonValue::Bool(false));
            let v = query::with_field(
                v,
                "error",
                JsonValue::from_text("UUID not found or expired"),
            );
            document("404 Not Found", &v)
        },
        Ok(Some(b)) => {
            let v = query::with_field(reply::new_object(), "found", JsonValue::Bool(true));
            let v = query::with_field(v, "table", JsonValue::from_text(t.name.as_str()));
            let v = query::with_field(v, "uuid", JsonValue::from_text(key.to_text().as_str()));
            let left: i64 = out.ttl(t, key, now_secs);
            assert(access::ttl_gives(t@, out.world(), key.0, now_secs, left as int));
            let v = query::with_field(v, "ttl_seconds", reply::signed_value(left));
            let v = query::with_field(v, "data", access::data_value(&*b));
            document("200 OK", &v)
        },
    }
}

fn answer_exists<
    R: Fn(&str, u64, u64, u64) -> Result<Vec<u8>>,
    D: Fn(&str) -> u64,
    N: Fn(u64, u64) -> Option<bool>,
    H: Fn(u64) -> String,
>(t: &Table, key: &PlayerId, now_secs: u64, out: &Outside<R, D, N, H>) -> (r: Response)
    requires
        t.wf(),
        out.usable(),
    ensures
        exists_responds(t@, out.world(), key.0, now_secs, r@),
{
    let there = out.exists_in(t, key, now_secs);
    assert(access::there_gives(t@, out.world(), key.0, now_secs, there));
    let v = query::with_field(
        reply::new_object(),
        "uuid",
        JsonValue::from_text(key.to_text().as_str()),
    );
    let v = query::with_field(v, "exists", JsonValue::Bool(there));
    document("200 OK", &v)
}

fn answer_top(t: &Table, field: &str, limit: usize) -> (r: Response)
    requires
        t.wf(),
    ensures
        r@ == top_response(t@, field@, limit),
{
    match t.index_manager.get_index(field) {
        None => {
            let mut msg = "Index '".to_owned();
            text::push_text(&mut msg, field);
            text::push_text(&mut msg, "' is not registered");
            error("404 Not Found", msg.as_str())
        },
        Some(x) => {
            let rows = x.get_top(limit);
            let v = query::with_field(
                reply::new_object(),
                "table",
                JsonValue::from_text(t.name.as_str()),
            );
            let v = query::with_field(v, "field", JsonValue::from_text(field));
            let v = query::with_field(v, "count", JsonValue::from_u64(rows.len() as u64));
            let v = query::with_field(v, "rankings", reply::rank_array(&rows, &t.key_names));
            proof {
                assert(secondary::rows_view(rows@).len() == rows@.len());
            }
            document("200 OK", &v)
        },
    }
}

// ---------------------------------------------------------------------------------------------
// Figures for monitoring
// ---------------------------------------------------------------------------------------------
/// The text of a label's value: quotes, backslashes and line feeds are escaped.
pub open spec fn label(s: Seq<char>) -> Seq<char>
    decreases s.len(),
{
    if s.len() == 0 {
        Seq::empty()
    } else {
        label(s.drop_last()) + (if s.last() == '"' {
            seq!['\\', '"']
        } else if s.last() == '\\' {
            seq!['\\', '\\']
        } else if s.last() == '\n' {
            seq!['\\', 'n']
        } else {
            seq![s.last()]
        })
    }
}

/// One figure of a table.
pub open spec fn table_figure(name: Seq<char>, table: Seq<char>, n: nat) -> Seq<char> {
    name + "{table=\""@ + label(table) + "\"} "@ + text::dec_text(n) + "\n"@
}

/// The number of a table's active records; no line where they cannot be read.
pub open spec fn records_figure(t: TableState, records: Option<u64>) -> Seq<char> {
    match records {
        Some(n) => table_figure("fluxdb_table_records"@, t.name, n as nat),
        None => Seq::empty(),
    }
}

/// The figures of some tables, given the number of records of each.
pub open spec fn table_figures(s: Seq<TableState>, records: Seq<Option<u64>>) -> Seq<char>
    decreases s.len(),
{
    if s.len() == 0 {
        Seq::empty()
    } else {
        let t = s.last();
        let v = t.engine;
        table_figures(s.drop_last(), records.drop_last()) + records_figure(t, records.last())
            + table_figure("fluxdb_table_sstable_count"@, t.name, v.tables.len()) + table_figure(
            "fluxdb_table_memtable_records"@,
            t.name,
            v.memory.len(),
        )
    }
}

/// The capacity of the block cache; it wraps around.
pub open spec fn cache_capacity(m: ManagerView) -> nat {
    ((m.config.block_cache_mb * 1048576) % (usize::MAX + 1)) as nat
}

/// All figures, one on each line.
pub open spec fn metrics_text(m: ManagerView, total: u64, records: Seq<Option<u64>>) -> Seq<char> {
    "fluxdb_up 1\nfluxdb_total_disk_bytes "@ + text::dec_text(total as nat)
        + "\nfluxdb_block_cache_capacity_bytes "@ + text::dec_text(cache_capacity(m)) + "\n"@
        + table_figures(m.tables, records)
}

/// What counting the records of some tables may give, one table after the other.
pub open spec fn totals_give(s: Seq<TableState>, w: World, records: Seq<Option<u64>>) -> bool {
    &&& records.len() == s.len()
    &&& forall|i: int|
        0 <= i < records.len() ==> access::total_gives(s[i], w, #[trigger] records[i])
}

/// What the figures for monitoring may be.
pub open spec fn metrics_responds(m: ManagerView, w: World, r: ResponseView) -> bool {
    exists|total: u64, records: Seq<Option<u64>>| #[trigger]
        tcp::total_told(m.tables, w, total) && #[trigger] totals_give(m.tables, w, records) && r
            == (ResponseView {
            status: "200 OK"@,
            content_type: "text/plain; version=0.0.4"@,
            body: metrics_text(m, total, records),
        })
}

fn label_text(s: &str) -> (r: String)
    ensures
        r@ == label(s@),
{
    let chars = text::chars_of(s);
    let mut out: Vec<char> = Vec::new();
    let mut i: usize = 0;
    assert(chars@.take(0) =~= Seq::empty());
    assert(out@ =~= Seq::empty());
    while i < chars.len()
        invariant
            i <= chars@.len(),
            out@ == label(chars@.take(i as int)),
        decreases chars@.len() - i,
    {
        let ghost held = out@;
        let c = chars[i];
        proof {
            assert(chars@.take(i + 1).drop_last() =~= chars@.take(i as int));
            assert(chars@.take(i + 1).last() == c);
        }
        if c == '"' {
            out.push('\\');
            out.push('"');
            assert(out@ =~= held + seq!['\\', '"']);
        } else if c == '\\' {
            out.push('\\');
            out.push('\\');
            assert(out@ =~= held + seq!['\\', '\\']);
        } else if c == '\n' {
            out.push('\\');
            out.push('n');
            assert(out@ =~= held + seq!['\\', 'n']);
        } else {
            out.push(c);
            assert(out@ =~= held + seq![c]);
        }
        i = i + 1;
    }
    assert(chars@.take(i as int) =~= chars@);
    text::string_of(&out)
}

fn push_figure(out: &mut String, name: &str, table: &str, n: u64)
    ensures
        final(out)@ == old(out)@ + table_figure(name@, table@, n as nat),
{
    let ghost before = out@;
    text::push_text(out, name);
    text::push_text(out, "{table=\"");
    let own = label_text(table);
    text::push_text(out, own.as_str());
    text::push_text(out, "\"} ");
    let digits = text::to_dec(n);
    text::push_text(out, digits.as_str());
    text::push_text(out, "\n");
    assert(out@ =~= before + table_figure(name@, table@, n as nat));
}

fn answer_metrics<
    R: Fn(&str, u64, u64, u64) -> Result<Vec<u8>>,
    D: Fn(&str) -> u64,
    N: Fn(u64, u64) -> Option<bool>,
    H: Fn(u64) -> String,
>(m: &TableManager, out: &Outside<R, D, N, H>) -> (r: Response)
    requires
        m.wf(),
        out.usable(),
    ensures
        metrics_responds(m@, out.world(), r@),
{
    let ghost w = out.world();
    let ghost mut heard: Seq<Option<u64>> = Seq::empty();
    let total: u64 = tcp::total_disk_size_bytes(m, out);
    let capacity: usize = m.get_config().block_cache_mb.wrapping_mul(1048576);
    let mut body = "fluxdb_up 1\nfluxdb_total_disk_bytes ".to_owned();
    text::push_text(&mut body, text::to_dec(total).as_str());
    text::push_text(&mut body, "\nfluxdb_block_cache_capacity_bytes ");
    text::push_text(&mut body, text::to_dec(capacity as u64).as_str());
    text::push_text(&mut body, "\n");
    let ghost head = body@;
    let ghost view = m@.tables;
    let count: usize = m.list_tables().len();
    assert(count == view.len()) by {
        assert(manager::names_of(view).len() == view.len());
    }
    let mut i: usize = 0;
    assert(view.take(0) =~= Seq::empty());
    assert(head + Seq::empty() =~= head);
    while i < count
        invariant
            i <= count,
            count == view.len(),
            view == m@.tables,
            m.wf(),
            out.usable(),
            w == out.world(),
            heard.len() == i,
            forall|j: int| 0 <= j < i ==> access::total_gives(view[j], w, #[trigger] heard[j]),
            body@ == head + table_figures(view.take(i as int), heard),
        decreases count - i,
    {
        let t = m.table_at(i);
        let (mem, imm, sst) = t.engine.stats();
        let ghost held = body@;
        let records = out.total_entries(t);
        if let Some(n) = records {
            push_figure(&mut body, "fluxdb_table_records", t.name.as_str(), n);
        }
        push_figure(&mut body, "fluxdb_table_sstable_count", t.name.as_str(), sst as u64);
        push_figure(&mut body, "fluxdb_table_memtable_records", t.name.as_str(), mem as u64);
        proof {
            assert(view.take(i + 1).drop_last() =~= view.take(i as int));
            assert(view.take(i + 1).last() == t@);
            let before = heard;
            heard = before.push(records);
            assert(heard.drop_last() =~= before);
            assert(body@ =~= head + table_figures(view.take(i + 1), heard));
        }
        i = i + 1;
    }
    assert(view.take(i as int) =~= view);
    assert(totals_give(view, w, heard));
    assert(tcp::total_told(view, w, total));
    Response { status: "200 OK", content_type: "text/plain; version=0.0.4", body }
}

// ---------------------------------------------------------------------------------------------
// Routing
// ---------------------------------------------------------------------------------------------
/// What a request asks for next: a response is sent, the page is shown, a table is opened, or the
/// tables are copied.
pub enum HttpStep {
    Respond(Response),
    Page,
    Create(String),
    Backup,
}

/// What a request asks for next, by views.
pub enum HttpStepView {
    Respond(ResponseView),
    Page,
    Create(Seq<char>),
    Backup,
}

impl View for HttpStep {
    type V = HttpStepView;

    open spec fn view(&self) -> HttpStepView {
        match *self {
            HttpStep::Respond(r) => HttpStepView::Respond(r@),
            HttpStep::Page => HttpStepView::Page,
            HttpStep::Create(name) => HttpStepView::Create(name@),
            HttpStep::Backup => HttpStepView::Backup,
        }
    }
}

/// The path lies below the interface for programs.
pub open spec fn is_api(path: Seq<char>) -> bool {
    path.len() >= "/api/"@.len() && path.take("/api/"@.len() as int) == "/api/"@
}

/// A request lacks the password.
pub open spec fn refused(r: RequestView, pass: Option<Seq<char>>) -> bool {
    pass matches Some(p) && is_api(r.path) && param_text(r.query, "token"@) != p
}

/// What a request that needs a table and a key of it may be answered.
pub open spec fn keyed_responds(
    m: ManagerView,
    query: Seq<char>,
    r: ResponseView,
    answers: spec_fn(TableState, u128, ResponseView) -> bool,
) -> bool {
    match access::table_of(m, param_text(query, "table"@)) {
        None => r == table_missing(),
        Some(t) => match types::key_of_text(param_text(query, "uuid"@)) {
            Err(e) => r == bad_key(e),
            Ok(key) => answers(t, key, r),
        },
    }
}

/// What a request that needs a table may be answered.
pub open spec fn table_responds(
    m: ManagerView,
    query: Seq<char>,
    r: ResponseView,
    answers: spec_fn(TableState, ResponseView) -> bool,
) -> bool {
    match access::table_of(m, param_text(query, "table"@)) {
        None => r == table_missing(),
        Some(t) => answers(t, r),
    }
}

/// The path of a request that changes nothing.
pub open spec fn is_reading(path: Seq<char>) -> bool {
    path == "/api/tables"@ || path == "/api/stats"@ || path == "/api/get"@ || path
        == "/api/exists"@ || path == "/api/top"@ || path == "/metrics"@
}

/// What a request that changes nothing may be answered.
pub open spec fn reading_responds(
    m: ManagerView,
    q: RequestView,
    now_secs: u64,
    w: World,
    r: ResponseView,
) -> bool {
    if q.path == "/api/tables"@ {
        tables_responds(m, w, r)
    } else if q.path == "/api/stats"@ {
        table_responds(
            m,
            q.query,
            r,
            |t: TableState, a: ResponseView| stats_responds(t, w, a),
        )
    } else if q.path == "/api/get"@ {
        keyed_responds(
            m,
            q.query,
            r,
            |t: TableState, key: u128, a: ResponseView| get_responds(t, w, key, now_secs, a),
        )
    } else if q.path == "/api/exists"@ {
        keyed_responds(
            m,
            q.query,
            r,
            |t: TableState, key: u128, a: ResponseView| exists_responds(t, w, key, now_secs, a),
        )
    } else if q.path == "/api/top"@ {
        table_responds(
            m,
            q.query,
            r,
            |t: TableState, a: ResponseView|
                a == top_response(
                    t,
                    param_text(q.query, "field"@),
                    param_number(q.query, "limit"@, usize::MAX as nat, 50) as usize,
                ),
        )
    } else {
        q.path == "/metrics"@ && metrics_responds(m, w, r)
    }
}

/// The response to a request for a key's expiry.
pub open spec fn expire_response(key: u128, done: bool, seconds: nat) -> ResponseView {
    shows_document(
        "200 OK"@,
        JsonView::Object(
            reply::no_fields().insert("uuid"@, JsonView::String(types::uuid_text(key))).insert(
                "success"@,
                JsonView::Bool(done),
            ).insert("expires_in_seconds"@, reply::count(seconds)),
        ),
    )
}

/// A request for a key's expiry.
pub open spec fn expire_runs(
    before: ManagerView,
    query: Seq<char>,
    now_secs: u64,
    w: World,
    after: ManagerView,
    step: HttpStepView,
) -> bool {
    let seconds = param_number(query, "seconds"@, u64::MAX as nat, 60);
    match manager::table_place(before.tables, param_text(query, "table"@)) {
        None => after == before && step == HttpStepView::Respond(table_missing()),
        Some(i) => match types::key_of_text(param_text(query, "uuid"@)) {
            Err(e) => after == before && step == HttpStepView::Respond(bad_key(e)),
            Ok(key) => {
                let t = before.tables[i];
                exists|done: bool| #[trigger]
                    access::there_gives(t, w, key, now_secs, done) && step
                        == HttpStepView::Respond(expire_response(key, done, seconds)) && after
                        == (if done {
                        tcp::with_state(
                            before,
                            i,
                            access::expiring(t, key, seconds as u64, now_secs),
                        )
                    } else {
                        before
                    })
            },
        },
    }
}

/// A request for a flush.
pub open spec fn flush_runs(
    before: ManagerView,
    query: Seq<char>,
    after: ManagerView,
    step: HttpStepView,
) -> bool {
    let name = param_text(query, "table"@);
    match manager::table_place(before.tables, name) {
        None => after == before && step == HttpStepView::Respond(table_missing()),
        Some(i) => {
            &&& after == tcp::with_state(before, i, tcp::flushed_table(before.tables[i]))
            &&& step == HttpStepView::Respond(
                shows_document(
                    "200 OK"@,
                    JsonView::Object(
                        reply::no_fields().insert("success"@, JsonView::Bool(true)).insert(
                            "table"@,
                            JsonView::String(name),
                        ).insert("message"@, JsonView::String("Flush completed"@)),
                    ),
                ),
            )
        },
    }
}

/// A request for an index.
pub open spec fn index_runs(
    before: ManagerView,
    query: Seq<char>,
    now_secs: u64,
    w: World,
    after: ManagerView,
    step: HttpStepView,
) -> bool {
    let name = param_text(query, "table"@);
    let field = param_text(query, "field"@);
    if field.len() == 0 {
        after == before && step == HttpStepView::Respond(
            shows_document("400 Bad Request"@, error_document("Missing field parameter"@)),
        )
    } else {
        match manager::table_place(before.tables, name) {
            None => after == before && step == HttpStepView::Respond(table_missing()),
            Some(i) => exists|made: core::result::Result<TableState, ErrorView>| #[trigger]
                access::index_gives(before.tables[i], w, field, now_secs, made) && match made {
                Err(e) => after == before && step == HttpStepView::Respond(
                    shows_document(
                        "500 Internal Error"@,
                        error_document(types::error_text(e)),
                    ),
                ),
                Ok(t) => after == tcp::with_state(before, i, t) && step == HttpStepView::Respond(
                    shows_document(
                        "200 OK"@,
                        JsonView::Object(
                            reply::no_fields().insert("success"@, JsonView::Bool(true)).insert(
                                "table"@,
                                JsonView::String(name),
                            ).insert("created"@, JsonView::String(field)),
                        ),
                    ),
                ),
            },
        }
    }
}

/// What a request does: the tables after it, and what it asks for next.
pub open spec fn handles(
    before: ManagerView,
    r: RequestView,
    pass: Option<Seq<char>>,
    now_ms: u64,
    w: World,
    after: ManagerView,
    step: HttpStepView,
) -> bool {
    let now_secs = now_ms / 1000;
    if refused(r, pass) {
        after == before && step == HttpStepView::Respond(
            shows_document(
                "401 Unauthorized"@,
                error_document("Unauthorized. Provide ?token=password"@),
            ),
        )
    } else if r.path == "/"@ || r.path == "/index.html"@ {
        after == before && step == HttpStepView::Page
    } else if r.path == "/api/table/create"@ {
        let name = text::lower_text(text::trimmed(param_text(r.query, "name"@)));
        &&& after == before
        &&& step == (if name.len() > 0 {
            HttpStepView::Create(name)
        } else {
            HttpStepView::Respond(
                shows_document("400 Bad Request"@, error_document("Missing table name"@)),
            )
        })
    } else if r.path == "/api/expire"@ {
        expire_runs(before, r.query, now_secs, w, after, step)
    } else if r.path == "/api/flush"@ {
        flush_runs(before, r.query, after, step)
    } else if r.path == "/api/backup"@ {
        after == before && step == HttpStepView::Backup
    } else if r.path == "/api/index/create"@ {
        index_runs(before, r.query, now_secs, w, after, step)
    } else {
        &&& after == before
        &&& step matches HttpStepView::Respond(response) && if is_reading(r.path) {
            reading_responds(before, r, now_secs, w, response)
        } else {
            response == shows_document("404 Not Found"@, error_document("Endpoint not found"@))
        }
    }
}

fn key_param(query: &str) -> (r: Result<PlayerId>)
    ensures
        match r {
            Ok(k) => types::key_of_text(param_text(query@, "uuid"@)) == Ok::<u128, ErrorView>(k.0),
            Err(e) => types::key_of_text(param_text(query@, "uuid"@)) == Err::<u128, ErrorView>(
                e@,
            ),
        },
{
    PlayerId::parse(text_param(query, "uuid").as_str())
}

fn starts_api(path: &str) -> (r: bool)
    ensures
        r == is_api(path@),
{
    let chars = text::chars_of(path);
    let head = text::chars_of("/api/");
    if chars.len() < head.len() {
        return false;
    }
    assert(chars@.subrange(0, head@.len() as int) =~= chars@.take(head@.len() as int));
    text::stands_at(&chars, &head, 0)
}

fn is_refused(req: &Request, pass: &Option<String>) -> (r: bool)
    ensures
        r == refused(req@, crate::proto::command::option_text(*pass)),
{
    match pass {
        None => false,
        Some(p) => {
            let token = text_param(req.query.as_str(), "token");
            starts_api(req.path.as_str()) && !text::text_eq(token.as_str(), p.as_str())
        },
    }
}

fn answer_reading<
    R: Fn(&str, u64, u64, u64) -> Result<Vec<u8>>,
    D: Fn(&str) -> u64,
    N: Fn(u64, u64) -> Option<bool>,
    H: Fn(u64) -> String,
>(m: &TableManager, req: &Request, now_secs: u64, out: &Outside<R, D, N, H>) -> (r: Option<Response>)
    requires
        m.wf(),
        out.usable(),
    ensures
        r is Some <==> is_reading(req@.path),
        r matches Some(b) ==> reading_responds(m@, req@, now_secs, out.world(), b@),
{
    let path = req.path.as_str();
    let q = req.query.as_str();
    if text::text_eq(path, "/api/tables") {
        return Some(answer_tables(m, out));
    }
    if text::text_eq(path, "/api/stats") {
        return match m.get_table(text_param(q, "table").as_str()) {
            None => Some(no_table()),
            Some(t) => Some(answer_stats(t, out)),
        };
    }
    if text::text_eq(path, "/api/get") {
        return match m.get_table(text_param(q, "table").as_str()) {
            None => Some(no_table()),
            Some(t) => match key_param(q) {
                Err(e) => Some(no_key(&e)),
                Ok(key) => Some(answer_get(t, &key, now_secs, out)),
            },
        };
    }
    if text::text_eq(path, "/api/exists") {
        return match m.get_table(text_param(q, "table").as_str()) {
            None => Some(no_table()),
            Some(t) => match key_param(q) {
                Err(e) => Some(no_key(&e)),
                Ok(key) => Some(answer_exists(t, &key, now_secs, out)),
            },
        };
    }
    if text::text_eq(path, "/api/top") {
        let field = text_param(q, "field");
        let limit: u64 = number_param(q, "limit", usize::MAX as u64, 50);
        return match m.get_table(text_param(q, "table").as_str()) {
            None => Some(no_table()),
            Some(t) => Some(answer_top(t, field.as_str(), limit as usize)),
        };
    }
    if text::text_eq(path, "/metrics") {
        return Some(answer_metrics(m, out));
    }
    None
}

fn handle_expire<
    R: Fn(&str, u64, u64, u64) -> Result<Vec<u8>>,
    D: Fn(&str) -> u64,
    N: Fn(u64, u64) -> Option<bool>,
    H: Fn(u64) -> String,
>(m: &mut TableManager, q: &str, now_secs: u64, out: &Outside<R, D, N, H>) -> (r: HttpStep)
    requires
        old(m).wf(),
        out.usable(),
    ensures
        final(m).wf(),
        expire_runs(old(m)@, q@, now_secs, out.world(), final(m)@, r@),
{
    let seconds: u64 = number_param(q, "seconds", u64::MAX, 60);
    let i: usize = match m.find_table(text_param(q, "table").as_str()) {
        None => {
            return HttpStep::Respond(no_table());
        },
        Some(i) => i,
    };
    let key = match key_param(q) {
        Err(e) => {
            return HttpStep::Respond(no_key(&e));
        },
        Ok(k) => k,
    };
    let ghost before = m@;
    let t = m.table_at_mut(i);
    let done = out.expire(t, &key, seconds, now_secs);
    proof {
        assert(access::there_gives(
            before.tables[i as int],
            out.world(),
            key.0,
            now_secs,
            done,
        ));
        if !done {
            assert(m@.tables =~= before.tables);
        }
    }
    let v = query::with_field(
        reply::new_object(),
        "uuid",
        JsonValue::from_text(key.to_text().as_str()),
    );
    let v = query::with_field(v, "success", JsonValue::Bool(done));
    let v = query::with_field(v, "expires_in_seconds", JsonValue::from_u64(seconds));
    HttpStep::Respond(document("200 OK", &v))
}

fn handle_flush(m: &mut TableManager, q: &str) -> (r: HttpStep)
    requires
        old(m).wf(),
    ensures
        final(m).wf(),
        flush_runs(old(m)@, q@, final(m)@, r@),
{
    let name = text_param(q, "table");
    match m.find_table(name.as_str()) {
        None => HttpStep::Respond(no_table()),
        Some(i) => {
            let t = m.table_at_mut(i);
            t.engine.force_flush();
            let v = query::with_field(reply::new_object(), "success", JsonValue::Bool(true));
            let v = query::with_field(v, "table", JsonValue::from_text(name.as_str()));
            let v = query::with_field(v, "message", JsonValue::from_text("Flush completed"));
            HttpStep::Respond(document("200 OK", &v))
        },
    }
}

fn handle_index<
    R: Fn(&str, u64, u64, u64) -> Result<Vec<u8>>,
    D: Fn(&str) -> u64,
    N: Fn(u64, u64) -> Option<bool>,
    H: Fn(u64) -> String,
>(m: &mut TableManager, q: &str, now_secs: u64, out: &Outside<R, D, N, H>) -> (r: HttpStep)
    requires
        old(m).wf(),
        out.usable(),
    ensures
        final(m).wf(),
        index_runs(old(m)@, q@, now_secs, out.world(), final(m)@, r@),
{
    let name = text_param(q, "table");
    let field = text_param(q, "field");
    if text::chars_of(field.as_str()).len() == 0 {
        return HttpStep::Respond(error("400 Bad Request", "Missing field parameter"));
    }
    match m.find_table(name.as_str()) {
        None => HttpStep::Respond(no_table()),
        Some(i) => {
            let ghost before = m@;
            let t = m.table_at_mut(i);
            let made = out.create_index(t, field.as_str(), now_secs);
            if let Err(e) = &made {
                proof {
                    assert(m@.tables =~= before.tables);
                }
                return HttpStep::Respond(error("500 Internal Error", e.to_text().as_str()));
            }
            let v = query::with_field(reply::new_object(), "success", JsonValue::Bool(true));
            let v = query::with_field(v, "table", JsonValue::from_text(name.as_str()));
            let v = query::with_field(v, "created", JsonValue::from_text(field.as_str()));
            HttpStep::Respond(document("200 OK", &v))
        },
    }
}

/// Handles a request.
pub fn handle<
    R: Fn(&str, u64, u64, u64) -> Result<Vec<u8>>,
    D: Fn(&str) -> u64,
    N: Fn(u64, u64) -> Option<bool>,
    H: Fn(u64) -> String,
>(
    m: &mut TableManager,
    req: &Request,
    pass: &Option<String>,
    now_ms: u64,
    out: &Outside<R, D, N, H>,
) -> (r: HttpStep)
    requires
        old(m).wf(),
        out.usable(),
    ensures
        final(m).wf(),
        handles(
            old(m)@,
            req@,
            crate::proto::command::option_text(*pass),
            now_ms,
            out.world(),
            final(m)@,
            r@,
        ),
{
    let now_secs: u64 = now_ms / 1000;
    let path = req.path.as_str();
    let q = req.query.as_str();
    if is_refused(req, pass) {
        return HttpStep::Respond(
            error("401 Unauthorized", "Unauthorized. Provide ?token=password"),
        );
    }
    if text::text_eq(path, "/") || text::text_eq(path, "/index.html") {
        return HttpStep::Page;
    }
    if text::text_eq(path, "/api/table/create") {
        let raw = text::chars_of(text_param(q, "name").as_str());
        let trimmed = text::string_of(text::trim(&raw));
        let name = text::to_lower(trimmed.as_str());
        if text::chars_of(name.as_str()).len() > 0 {
            return HttpStep::Create(name);
        }
        return HttpStep::Respond(error("400 Bad Request", "Missing table name"));
    }
    if text::text_eq(path, "/api/expire") {
        return handle_expire(m, q, now_secs, out);
    }
    if text::text_eq(path, "/api/flush") {
        return handle_flush(m, q);
    }
    if text::text_eq(path, "/api/backup") {
        return HttpStep::Backup;
    }
    if text::text_eq(path, "/api/index/create") {
        return handle_index(m, q, now_secs, out);
    }
    match answer_reading(m, req, now_secs, out) {
        Some(response) => HttpStep::Respond(response),
        None => HttpStep::Respond(error("404 Not Found", "Endpoint not found")),
    }
}

/// The response to a request for a new table, given how opening it ended.
pub fn created_response(name: &str, opened: &Result<()>) -> (r: Response)
    ensures
        r@ == match *opened {
            Ok(_) => shows_document(
                "200 OK"@,
                JsonView::Object(
                    reply::no_fields().insert("success"@, JsonView::Bool(true)).insert(
                        "table"@,
                        JsonView::String(name@),
                    ),
                ),
            ),
            Err(e) => shows_document(
                "500 Internal Error"@,
                error_document(types::error_text(e@)),
            ),
        },
{
    match opened {
        Ok(_) => {
            let v = query::with_field(reply::new_object(), "success", JsonValue::Bool(true));
            let v = query::with_field(v, "table", JsonValue::from_text(name));
            document("200 OK", &v)
        },
        Err(e) => error("500 Internal Error", e.to_text().as_str()),
    }
}

/// The response to a request for a backup, given how copying ended.
pub fn backup_response(copied: &Result<String>) -> (r: Response)
    ensures
        r@ == match *copied {
            Ok(path) => shows_document(
                "200 OK"@,
                JsonView::Object(
                    reply::no_fields().insert("success"@, JsonView::Bool(true)).insert(
                        "backup_path"@,
                        JsonView::String(path@),
                    ),
                ),
            ),
            Err(e) => shows_document(
                "500 Internal Error"@,
                error_document("Backup failed: "@ + types::error_text(e@)),
            ),
        },
{
    match copied {
        Ok(path) => {
            let v = query::with_field(reply::new_object(), "success", JsonValue::Bool(true));
            let v = query::with_field(v, "backup_path", JsonValue::from_text(path.as_str()));
            document("200 OK", &v)
        },
        Err(e) => {
            let mut msg = "Backup failed: ".to_owned();
            text::push_text(&mut msg, e.to_text().as_str());
            error("500 Internal Error", msg.as_str())
        },
    }
}

/// With a password set, a request below `/api/` that does not carry it changes nothing and is
/// refused.
pub proof fn law_no_request_without_password(
    before: ManagerView,
    r: RequestView,
    pass: Seq<char>,
    now_ms: u64,
    w: World,
    after: ManagerView,
    step: HttpStepView,
)
    requires
        handles(before, r, Some(pass), now_ms, w, after, step),
        is_api(r.path),
        param_text(r.query, "token"@) != pass,
    ensures
        after == before,
        step matches HttpStepView::Respond(response) && response.status == "401 Unauthorized"@,
{
}

} // verus!
