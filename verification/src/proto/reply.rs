//! Replies of the text protocol.
use vstd::prelude::*;
use vstd::utf8::encode_utf8;

use crate::index::json::{JsonNumber, JsonValue, JsonView};
use crate::index::json;
use crate::index::query;
use crate::storage::engine;
use crate::table::names::KeyNames;
use crate::table::names;
use crate::text;
use crate::types::{DbError, ErrorView, PlayerId};
use crate::types;

verus! {

// ---------------------------------------------------------------------------------------------
// Lines
// ---------------------------------------------------------------------------------------------
/// A line of a reply.
pub open spec fn line(s: Seq<char>) -> Seq<u8> {
    encode_utf8(s + "\r\n"@)
}

/// Bytes with their length before them.
pub open spec fn bulk(v: Seq<u8>) -> Seq<u8> {
    line("$"@ + text::dec_text(v.len())) + v + encode_utf8("\r\n"@)
}

/// The reply where there is no value.
pub open spec fn nil() -> Seq<u8> {
    line("$-1"@)
}

/// A whole number.
pub open spec fn number(n: int) -> Seq<u8> {
    line(":"@ + text::int_text(n))
}

/// An error.
pub open spec fn failure(e: ErrorView) -> Seq<u8> {
    line("-ERR "@ + types::error_text(e))
}

/// The reply where a table is missing.
pub open spec fn no_table(name: Seq<char>) -> Seq<u8> {
    line("-ERR Table '"@ + name + "' does not exist"@)
}

/// The reply to a write where a table is missing.
pub open spec fn no_table_to_write(name: Seq<char>) -> Seq<u8> {
    line("-ERR Table '"@ + name + "' does not exist. Use 'CREATE TABLE "@ + name + "'"@)
}

/// The reply where an index is missing.
pub open spec fn no_index(table: Seq<char>, path: Seq<char>) -> Seq<u8> {
    line("-ERR Index '"@ + table + ":"@ + path + "' not found."@)
}

/// The value that a lookup gave, or nothing.
pub open spec fn value_reply(v: Option<Seq<u8>>) -> Seq<u8> {
    match v {
        Some(bytes) => bulk(bytes),
        None => nil(),
    }
}

pub fn bytes_of(s: &str) -> (r: Vec<u8>)
    ensures
        r@ == encode_utf8(s@),
{
    let mut out: Vec<u8> = Vec::new();
    out.extend_from_slice(s.as_bytes());
    assert(out@ =~= encode_utf8(s@));
    out
}

pub fn line_of(s: &str) -> (r: Vec<u8>)
    ensures
        r@ == line(s@),
{
    let mut t = s.to_owned();
    text::push_text(&mut t, "\r\n");
    bytes_of(t.as_str())
}

pub fn bulk_of(v: &[u8]) -> (r: Vec<u8>)
    ensures
        r@ == bulk(v@),
{
    let mut head = "$".to_owned();
    text::push_text(&mut head, text::to_dec(v.len() as u64).as_str());
    let mut out = line_of(head.as_str());
    let end = bytes_of("\r\n");
    let ghost first = out@;
    out.extend_from_slice(v);
    assert(out@ =~= first + v@);
    out.extend_from_slice(&end);
    assert(out@ =~= first + v@ + end@);
    out
}

pub fn nil_reply() -> (r: Vec<u8>)
    ensures
        r@ == nil(),
{
    line_of("$-1")
}

pub fn number_of(n: u64) -> (r: Vec<u8>)
    ensures
        r@ == number(n as int),
{
    let mut t = ":".to_owned();
    text::push_text(&mut t, text::to_dec(n).as_str());
    line_of(t.as_str())
}

pub fn signed_of(n: i64) -> (r: Vec<u8>)
    ensures
        r@ == number(n as int),
{
    let mut t = ":".to_owned();
    if n < 0 {
        text::push_text(&mut t, "-");
        let size: u64 = (-(n + 1)) as u64 + 1;
        let digits = text::to_dec(size);
        let ghost so_far = t@;
        text::push_text(&mut t, digits.as_str());
        proof {
            reveal_strlit("-");
            assert(size == -n);
            assert(":"@ + text::int_text(n as int) =~= so_far + digits@);
        }
    } else {
        text::push_text(&mut t, text::to_dec(n as u64).as_str());
    }
    line_of(t.as_str())
}

pub fn failure_of(e: &DbError) -> (r: Vec<u8>)
    ensures
        r@ == failure(e@),
{
    let mut t = "-ERR ".to_owned();
    text::push_text(&mut t, e.to_text().as_str());
    line_of(t.as_str())
}

pub fn no_table_reply(name: &str) -> (r: Vec<u8>)
    ensures
        r@ == no_table(name@),
{
    let mut t = "-ERR Table '".to_owned();
    text::push_text(&mut t, name);
    text::push_text(&mut t, "' does not exist");
    line_of(t.as_str())
}

pub fn no_table_to_write_reply(name: &str) -> (r: Vec<u8>)
    ensures
        r@ == no_table_to_write(name@),
{
    let mut t = "-ERR Table '".to_owned();
    text::push_text(&mut t, name);
    text::push_text(&mut t, "' does not exist. Use 'CREATE TABLE ");
    text::push_text(&mut t, name);
    text::push_text(&mut t, "'");
    line_of(t.as_str())
}

pub fn no_index_reply(table: &str, path: &str) -> (r: Vec<u8>)
    ensures
        r@ == no_index(table@, path@),
{
    let mut t = "-ERR Index '".to_owned();
    text::push_text(&mut t, table);
    text::push_text(&mut t, ":");
    text::push_text(&mut t, path);
    text::push_text(&mut t, "' not found.");
    line_of(t.as_str())
}

// ---------------------------------------------------------------------------------------------
// Documents
// ---------------------------------------------------------------------------------------------
/// The compact text of a document with its length before it.
pub open spec fn document(v: JsonView) -> Seq<u8> {
    bulk(encode_utf8(json::json_text(v)))
}

/// The indented text of a document with its length before it.
pub open spec fn pretty_document(v: JsonView) -> Seq<u8> {
    bulk(encode_utf8(json::json_pretty_text(v)))
}

pub fn document_of(v: &JsonValue) -> (r: Vec<u8>)
    requires
        json::doc_ok(*v),
    ensures
        r@ == document(v@),
{
    let t = v.to_text();
    bulk_of(t.as_str().as_bytes())
}

pub fn pretty_document_of(v: &JsonValue) -> (r: Vec<u8>)
    requires
        json::doc_ok(*v),
    ensures
        r@ == pretty_document(v@),
{
    let t = v.to_pretty_text();
    bulk_of(t.as_str().as_bytes())
}

/// An object without fields.
pub open spec fn no_fields() -> Map<Seq<char>, JsonView> {
    Map::empty()
}

/// A whole number in a document.
pub open spec fn count(n: nat) -> JsonView {
    JsonView::Number(JsonNumber::PosInt(n as u64))
}

/// Texts in a document.
pub open spec fn text_items(s: Seq<Seq<char>>) -> JsonView {
    JsonView::Array(Seq::new(s.len(), |i: int| JsonView::String(s[i])))
}

pub fn new_object() -> (r: JsonValue)
    ensures
        r is Object,
        json::doc_ok(r),
        r@ == JsonView::Object(no_fields()),
{
    let r = JsonValue::Object(Vec::new());
    assert(r@->Object_0 =~= no_fields());
    r
}

/// A signed number.
pub open spec fn signed(n: int) -> JsonView {
    if n < 0 {
        JsonView::Number(JsonNumber::NegInt(n as i64))
    } else {
        JsonView::Number(JsonNumber::PosInt(n as u64))
    }
}

pub fn signed_value(n: i64) -> (r: JsonValue)
    ensures
        json::doc_ok(r),
        r@ == signed(n as int),
{
    if n < 0 {
        JsonValue::Number(JsonNumber::NegInt(n))
    } else {
        JsonValue::Number(JsonNumber::PosInt(n as u64))
    }
}

/// The views of a list of documents, one by one.
pub proof fn lemma_items(s: Seq<JsonValue>)
    ensures
        json::items_view(s) == Seq::new(s.len(), |i: int| json::json_view(s[i])),
    decreases s.len(),
{
    if s.len() > 0 {
        lemma_items(s.drop_last());
    }
    assert(json::items_view(s) =~= Seq::new(s.len(), |i: int| json::json_view(s[i])));
}

pub fn text_array(list: &Vec<String>) -> (r: JsonValue)
    ensures
        json::doc_ok(r),
        r@ == text_items(engine::texts(list@)),
{
    let ghost tv = engine::texts(list@);
    let mut out: Vec<JsonValue> = Vec::new();
    let mut i: usize = 0;
    while i < list.len()
        invariant
            i <= list@.len(),
            out@.len() == i,
            tv == engine::texts(list@),
            forall|j: int|
                0 <= j < i ==> json::doc_ok(#[trigger] out@[j]) && out@[j]@ == JsonView::String(
                    tv[j],
                ),
        decreases list@.len() - i,
    {
        out.push(JsonValue::from_text(list[i].as_str()));
        i = i + 1;
    }
    proof {
        lemma_items(out@);
        assert(json::items_view(out@) =~= Seq::new(
            tv.len(),
            |i: int| JsonView::String(tv[i]),
        ));
    }
    JsonValue::Array(out)
}

/// A row of a ranking: a rank, a player, a score. Players are shown as they were written.
pub open spec fn rank_row(row: (u128, u64, nat), texts: Map<u128, Seq<char>>) -> JsonView {
    JsonView::Object(
        no_fields().insert("rank"@, count(row.2)).insert(
            "uuid"@,
            JsonView::String(names::shown(texts, row.0)),
        ).insert("score"@, json::float_json(row.1)),
    )
}

/// The rows of a ranking.
pub open spec fn rank_list(s: Seq<(u128, u64, nat)>, texts: Map<u128, Seq<char>>) -> JsonView {
    JsonView::Array(Seq::new(s.len(), |i: int| rank_row(s[i], texts)))
}

pub fn rank_array(rows: &Vec<(PlayerId, u64, usize)>, texts: &KeyNames) -> (r: JsonValue)
    ensures
        json::doc_ok(r),
        r@ == rank_list(crate::index::secondary::rows_view(rows@), texts@),
{
    let ghost rv = crate::index::secondary::rows_view(rows@);
    let mut out: Vec<JsonValue> = Vec::new();
    let mut i: usize = 0;
    while i < rows.len()
        invariant
            i <= rows@.len(),
            out@.len() == i,
            rv == crate::index::secondary::rows_view(rows@),
            forall|j: int|
                0 <= j < i ==> json::doc_ok(#[trigger] out@[j]) && out@[j]@ == rank_row(rv[j], texts@),
        decreases rows@.len() - i,
    {
        let (player, score, rank) = rows[i];
        assert(rv[i as int] == (player.0, score, rank as nat));
        let row = query::with_field(new_object(), "rank", JsonValue::from_u64(rank as u64));
        let shown = texts.shown(&player);
        let row = query::with_field(row, "uuid", JsonValue::from_text(shown.as_str()));
        let row = query::with_field(row, "score", JsonValue::from_bits(score));
        out.push(row);
        i = i + 1;
    }
    proof {
        lemma_items(out@);
        assert(json::items_view(out@) =~= Seq::new(rv.len(), |i: int| rank_row(rv[i], texts@)));
    }
    JsonValue::Array(out)
}

} // verus!
