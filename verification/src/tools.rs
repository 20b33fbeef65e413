//! What the command line tools compute: test data, replies of a server, lines to load and to dump.
use vstd::prelude::*;

use crate::index::json::{JsonValue, JsonView};
use crate::index::json;
use crate::index::query::QueryFilter;
use crate::index::query;
use crate::storage::engine;
use crate::text;
use crate::types::PlayerId;
use crate::types;

verus! {

// ---------------------------------------------------------------------------------------------
// Test data
// ---------------------------------------------------------------------------------------------
/// One round of mixing.
pub open spec fn mixed(x: u64) -> u64 {
    let y = x.wrapping_mul(0xd6e8feb86659fd93);
    y ^ (y >> 32)
}

/// The score of the record with a number: spread out, below a million.
pub open spec fn score_for(idx: u64, seed: u64) -> u32 {
    (mixed(mixed(idx ^ seed)) % 1000000) as u32
}

pub fn hash_idx_to_score(idx: u64, seed: u64) -> (r: u32)
    ensures
        r == score_for(idx, seed),
        r < 1000000,
{
    let mut x: u64 = idx ^ seed;
    x = x.wrapping_mul(0xd6e8feb86659fd93);
    x = x ^ (x >> 32);
    x = x.wrapping_mul(0xd6e8feb86659fd93);
    x = x ^ (x >> 32);
    (x % 1000000) as u32
}

/// The key of the record with a number.
pub open spec fn key_for(idx: u64) -> u128 {
    (idx * 0x1_0000_0000_0000_0000 + (0x55aa55aau64 ^ idx)) as u128
}

/// The text of the key of the record with a number.
pub fn get_uuid_for_index(idx: u64) -> (r: String)
    ensures
        r@ == types::uuid_text(key_for(idx)),
{
    let low: u64 = 0x55aa55aa ^ idx;
    let key: u128 = (idx as u128) * 0x1_0000_0000_0000_0000 + (low as u128);
    PlayerId(key).to_text()
}

/// Two records have different keys.
pub proof fn law_test_keys_differ(a: u64, b: u64)
    requires
        a != b,
    ensures
        key_for(a) != key_for(b),
{
    let x = 0x55aa55aau64 ^ a;
    let y = 0x55aa55aau64 ^ b;
}

/// The command that stores the record with a number.
pub open spec fn test_command(table: Seq<char>, idx: u64) -> Seq<char> {
    "SET "@ + table + " "@ + types::uuid_text(key_for(idx)) + " {\"name\":\"Player_"@
        + text::dec_text(idx as nat) + "\",\"stats\":{\"kills\":"@ + text::dec_text(
        score_for(idx, 0x12345678abcdef01) as nat,
    ) + ",\"wins\":"@ + text::dec_text((score_for(idx, 0x9876543210fedcba) % 5000) as nat)
        + "}}\r\n"@
}

pub fn write_test_command(table: &str, idx: u64) -> (r: String)
    ensures
        r@ == test_command(table@, idx),
{
    let kills: u32 = hash_idx_to_score(idx, 0x12345678abcdef01);
    let wins: u32 = hash_idx_to_score(idx, 0x9876543210fedcba) % 5000;
    let mut s = "SET ".to_owned();
    text::push_text(&mut s, table);
    text::push_text(&mut s, " ");
    text::push_text(&mut s, get_uuid_for_index(idx).as_str());
    text::push_text(&mut s, " {\"name\":\"Player_");
    text::push_text(&mut s, text::to_dec(idx).as_str());
    text::push_text(&mut s, "\",\"stats\":{\"kills\":");
    text::push_text(&mut s, text::to_dec(kills as u64).as_str());
    text::push_text(&mut s, ",\"wins\":");
    text::push_text(&mut s, text::to_dec(wins as u64).as_str());
    text::push_text(&mut s, "}}\r\n");
    s
}

// ---------------------------------------------------------------------------------------------
// Replies of a server
// ---------------------------------------------------------------------------------------------
/// What the first line of a reply announces: nothing more, an error, no value, so many bytes, so
/// many items, or a length that is none.
#[derive(Debug, Clone, Copy, PartialEq, Eq, Structural)]
pub enum ReplyHead {
    Done,
    Failure,
    Nil,
    Bulk(usize),
    Items(usize),
    BadLength,
    Unknown,
}

/// What the first line of a reply announces.
pub open spec fn head_of(input: Seq<char>) -> ReplyHead {
    let t = text::trimmed(input);
    let rest = text::trimmed(t.skip(1));
    if t.len() == 0 {
        ReplyHead::Unknown
    } else if t[0] == '+' || t[0] == ':' {
        ReplyHead::Done
    } else if t[0] == '-' {
        ReplyHead::Failure
    } else if t[0] == '$' {
        if rest == "-1"@ {
            ReplyHead::Nil
        } else {
            match text::parsed_number(rest, usize::MAX as nat) {
                Some(n) => ReplyHead::Bulk(n as usize),
                None => ReplyHead::BadLength,
            }
        }
    } else if t[0] == '*' {
        match text::parsed_number(rest, usize::MAX as nat) {
            Some(n) => ReplyHead::Items(n as usize),
            None => ReplyHead::BadLength,
        }
    } else {
        ReplyHead::Unknown
    }
}

fn length_of(s: &[char]) -> (r: Option<usize>)
    ensures
        match r {
            Some(n) => text::parsed_number(s@, usize::MAX as nat) == Some(n as nat),
            None => text::parsed_number(s@, usize::MAX as nat) is None,
        },
{
    match text::parse_u64(s) {
        Some(n) => if n <= usize::MAX as u64 {
            Some(n as usize)
        } else {
            None
        },
        None => None,
    }
}

/// Reads the first line of a reply.
pub fn read_head(input: &str) -> (r: ReplyHead)
    ensures
        r == head_of(input@),
{
    let all = text::chars_of(input);
    let t = text::trim(&all);
    let n: usize = t.len();
    if n == 0 {
        return ReplyHead::Unknown;
    }
    assert(t@.subrange(1, n as int) =~= t@.skip(1));
    let rest = text::trim(&t[1..n]);
    let c = t[0];
    if c == '+' || c == ':' {
        ReplyHead::Done
    } else if c == '-' {
        ReplyHead::Failure
    } else if c == '$' {
        let own = text::string_of(rest);
        if text::text_eq(own.as_str(), "-1") {
            ReplyHead::Nil
        } else {
            match length_of(rest) {
                Some(len) => ReplyHead::Bulk(len),
                None => ReplyHead::BadLength,
            }
        }
    } else if c == '*' {
        match length_of(rest) {
            Some(len) => ReplyHead::Items(len),
            None => ReplyHead::BadLength,
        }
    } else {
        ReplyHead::Unknown
    }
}

// ---------------------------------------------------------------------------------------------
// Loading
// ---------------------------------------------------------------------------------------------
/// The number of lines that each of some workers takes.
pub open spec fn chunk_len(total: int, workers: int) -> int {
    (total + workers - 1) / workers
}

/// The lines of one worker: from the first up to the second place; none where all are taken.
pub open spec fn chunk_of(total: int, workers: int, id: int) -> Option<(int, int)> {
    let start = id * chunk_len(total, workers);
    let end = start + chunk_len(total, workers);
    if start >= total {
        None
    } else {
        Some((start, if end < total { end } else { total }))
    }
}

/// The lines of one worker.
pub fn chunk_bounds(total: usize, workers: usize, id: usize) -> (r: Option<(usize, usize)>)
    requires
        0 < workers,
        id < workers,
        total + workers <= usize::MAX,
    ensures
        match r {
            Some((start, end)) => chunk_of(total as int, workers as int, id as int) == Some(
                (start as int, end as int),
            ),
            None => chunk_of(total as int, workers as int, id as int) is None,
        },
{
    let size: usize = (total + workers - 1) / workers;
    proof {
        let n = total + workers - 1;
        assert(id * size <= n) by (nonlinear_arith)
            requires
                0 <= id < workers,
                size == n / workers as int,
                0 <= n,
        {
            assert(workers * (n / workers as int) <= n);
            assert(id * size <= workers * size);
        }
        assert(size <= n) by (nonlinear_arith)
            requires
                0 < workers,
                size == n / workers as int,
                0 <= n,
        ;
    }
    let start: usize = id * size;
    if start >= total {
        return None;
    }
    let end: usize = if total - start < size {
        total
    } else {
        start + size
    };
    Some((start, end))
}

/// Every line is taken by a worker.
pub proof fn law_every_line_is_taken(total: int, workers: int, line: int)
    requires
        0 < workers,
        0 <= line < total,
    ensures
        exists|id: int|
            0 <= id < workers && (#[trigger] chunk_of(total, workers, id) matches Some(c) && c.0
                <= line < c.1),
{
    let size = chunk_len(total, workers);
    let n = total + workers - 1;
    assert(size >= 1 && workers * size >= total) by (nonlinear_arith)
        requires
            0 < workers,
            0 < total,
            size == n / workers,
            n == total + workers - 1,
    {
        assert(n == workers * (n / workers) + n % workers);
        assert(0 <= n % workers < workers);
    }
    let id = line / size;
    assert(0 <= id && id * size <= line && line < id * size + size && id < workers) by (
    nonlinear_arith)
        requires
            0 < workers,
            0 <= line < total,
            size >= 1,
            workers * size >= total,
            id == line / size,
    {
        assert(line == size * (line / size) + line % size);
        assert(0 <= line % size < size);
    }
    assert(chunk_of(total, workers, id) is Some);
}

/// No line is taken by two workers.
pub proof fn law_no_line_is_taken_twice(total: int, workers: int, a: int, b: int, line: int)
    requires
        0 < workers,
        0 <= a < b < workers,
        chunk_of(total, workers, a) matches Some(c) && c.0 <= line < c.1,
    ensures
        !(chunk_of(total, workers, b) matches Some(d) && d.0 <= line < d.1),
{
    let size = chunk_len(total, workers);
    assert(a * size + size <= b * size) by (nonlinear_arith)
        requires
            a + 1 <= b,
            0 <= size,
    {
        assert(a * size + size == (a + 1) * size);
    }
}

/// The command that loads a line that holds a document: the record that the document holds, under
/// the key that it names.
pub open spec fn document_command(table: Seq<char>, v: JsonView, input: Seq<char>) -> Seq<char> {
    let uuid = match query::value_at(v, query::path_parts("uuid"@)) {
        Some(JsonView::String(s)) => s,
        _ => Seq::empty(),
    };
    let data = match query::value_at(v, query::path_parts("data"@)) {
        Some(d) => json::json_text(d),
        None => input,
    };
    "SET "@ + table + " "@ + uuid + " "@ + data + "\r\n"@
}

/// The command that loads a line.
pub open spec fn load_command(table: Seq<char>, input: Seq<char>) -> Option<Seq<char>> {
    match json::parsed_json(vstd::utf8::encode_utf8(input)) {
        None => None,
        Some(v) => Some(document_command(table, v, input)),
    }
}

/// Writes the command that loads a line that holds a document.
pub fn write_document_command(table: &str, doc: &JsonValue, input: &str) -> (r: String)
    requires
        json::doc_ok(*doc),
    ensures
        r@ == document_command(table@, doc@, input@),
{
    let mut s = "SET ".to_owned();
    text::push_text(&mut s, table);
    text::push_text(&mut s, " ");
    let ghost head = s@;
    let ghost mut uuid: Seq<char> = Seq::empty();
    if let Some(v) = QueryFilter::get_json_path(doc, "uuid") {
        if let JsonValue::String(t) = v {
            text::push_text(&mut s, t.as_str());
            proof {
                uuid = t@;
            }
        }
    }
    assert(s@ =~= head + uuid);
    text::push_text(&mut s, " ");
    match QueryFilter::get_json_path(doc, "data") {
        Some(d) => {
            text::push_text(&mut s, d.to_text().as_str());
        },
        None => {
            text::push_text(&mut s, input);
        },
    }
    text::push_text(&mut s, "\r\n");
    s
}

/// Writes the command that loads a line, where it holds a document.
pub fn write_load_command(table: &str, input: &str) -> (r: Option<String>)
    ensures
        match r {
            Some(s) => load_command(table@, input@) == Some(s@),
            None => load_command(table@, input@) is None,
        },
{
    match JsonValue::parse(input.as_bytes()) {
        None => None,
        Some(doc) => Some(write_document_command(table, &doc, input)),
    }
}

// ---------------------------------------------------------------------------------------------
// Dumping
// ---------------------------------------------------------------------------------------------
/// The items of a list, one document on each line.
pub open spec fn item_lines(v: JsonView) -> Option<Seq<Seq<char>>> {
    match v {
        JsonView::Array(items) => Some(
            Seq::new(items.len(), |i: int| json::json_text(items[i])),
        ),
        _ => None,
    }
}

/// The records of a reply, one document on each line.
pub open spec fn dump_of(payload: Seq<u8>) -> Option<Seq<Seq<char>>> {
    match json::parsed_json(payload) {
        Some(v) => item_lines(v),
        None => None,
    }
}

/// Writes the items of a list, where the document is one.
pub fn write_items(doc: &JsonValue) -> (r: Option<Vec<String>>)
    requires
        json::doc_ok(*doc),
    ensures
        match r {
            Some(v) => item_lines(doc@) == Some(engine::texts(v@)),
            None => item_lines(doc@) is None,
        },
{
    match doc {
        JsonValue::Array(items) => {
            let ghost iv = json::items_view(items@);
            proof {
                crate::proto::reply::lemma_items(items@);
            }
            let mut out: Vec<String> = Vec::new();
            let mut i: usize = 0;
            while i < items.len()
                invariant
                    i <= items@.len(),
                    out@.len() == i,
                    iv == Seq::new(items@.len(), |j: int| json::json_view(items@[j])),
                    forall|j: int| 0 <= j < items@.len() ==> json::doc_ok(#[trigger] items@[j]),
                    forall|j: int| 0 <= j < i ==> (#[trigger] out@[j])@ == json::json_text(iv[j]),
                decreases items@.len() - i,
            {
                assert(iv[i as int] == items@[i as int]@);
                out.push(items[i].to_text());
                i = i + 1;
            }
            assert(engine::texts(out@) =~= Seq::new(iv.len(), |j: int| json::json_text(iv[j])));
            Some(out)
        },
        _ => None,
    }
}

/// Writes the records of a reply, one on each line.
pub fn dump_lines(payload: &[u8]) -> (r: Option<Vec<String>>)
    ensures
        match r {
            Some(v) => dump_of(payload@) == Some(engine::texts(v@)),
            None => dump_of(payload@) is None,
        },
{
    match JsonValue::parse(payload) {
        Some(doc) => write_items(&doc),
        None => None,
    }
}

// ---------------------------------------------------------------------------------------------
// Laws
// ---------------------------------------------------------------------------------------------
/// The first line of every kind of reply is known for what it is: a status and a number need nothing
/// more, an error is one, and a length is read as what it announces.
#[verifier::rlimit(40)]
pub proof fn law_reply_heads_are_told_apart(rest: Seq<char>, n: usize)
    requires
        rest.len() > 0 ==> !text::is_space(rest.last()),
    ensures
        head_of(seq!['+'] + rest + seq!['\r', '\n']) == ReplyHead::Done,
        head_of(seq![':'] + rest + seq!['\r', '\n']) == ReplyHead::Done,
        head_of(seq!['-'] + rest + seq!['\r', '\n']) == ReplyHead::Failure,
        head_of(seq!['$'] + text::dec_text(n as nat) + seq!['\r', '\n']) == ReplyHead::Bulk(n),
        head_of(seq!['*'] + text::dec_text(n as nat) + seq!['\r', '\n']) == ReplyHead::Items(n),
        head_of(seq!['$', '-', '1'] + seq!['\r', '\n']) == ReplyHead::Nil,
{
    let digits = text::dec_text(n as nat);
    crate::proto::laws::law_number_text_reads_back(n as nat, usize::MAX as nat);
    assert(!text::is_space(digits[0]) && !text::is_space(digits.last()));
    lemma_head(seq!['+'] + rest);
    lemma_head(seq![':'] + rest);
    lemma_head(seq!['-'] + rest);
    lemma_head(seq!['$'] + digits);
    lemma_head(seq!['*'] + digits);
    lemma_head(seq!['$', '-', '1']);
    assert((seq!['$'] + digits).skip(1) =~= digits);
    assert((seq!['*'] + digits).skip(1) =~= digits);
    text::lemma_trimmed_id(digits);
    reveal_strlit("-1");
    assert("-1"@ =~= seq!['-', '1']);
    assert(digits != "-1"@) by {
        assert("-1"@[0] == '-');
    }
    assert(seq!['$', '-', '1'].skip(1) =~= seq!['-', '1']);
    text::lemma_trimmed_id(seq!['-', '1']);
}

proof fn lemma_head(s: Seq<char>)
    requires
        s.len() > 0,
        !text::is_space(s[0]),
        !text::is_space(s.last()),
    ensures
        text::trimmed(s + seq!['\r', '\n']) == s,
{
    let none = Seq::<char>::empty();
    let end = seq!['\r', '\n'];
    text::law_trimming_drops_white_space_around(none, s, end);
    assert(none + s + end =~= s + end);
}

/// A line that holds a document with a key and a record is loaded by setting the record's text under
/// the key; without a record the line itself is set; a line that holds no document loads nothing.
pub proof fn law_loaded_line_sets_its_record(
    table: Seq<char>,
    input: Seq<char>,
    fields: Map<Seq<char>, JsonView>,
    name: Seq<char>,
)
    requires
        json::parsed_json(vstd::utf8::encode_utf8(input)) == Some(JsonView::Object(fields)),
        fields.contains_key("uuid"@),
        fields["uuid"@] == JsonView::String(name),
        crate::proto::laws::is_word(table),
        crate::proto::laws::is_word(name),
    ensures
        load_command(table, input) matches Some(line) && {
            let body = if fields.contains_key("data"@) {
                json::json_text(fields["data"@])
            } else {
                input
            };
            &&& line == "SET "@ + table + " "@ + name + " "@ + body + "\r\n"@
            &&& crate::proto::laws::is_rest(body) ==> crate::proto::codec::command_of(line) == Ok::<
                crate::proto::command::CommandView,
                crate::types::ErrorView,
            >(
                crate::proto::command::CommandView::Put {
                    table: text::lower_text(table),
                    key: crate::proto::laws::key(name),
                    value: vstd::utf8::encode_utf8(body),
                },
            )
        },
{
    let root = JsonView::Object(fields);
    lemma_field(root, "uuid"@);
    lemma_field(root, "data"@);
    let body = if fields.contains_key("data"@) {
        json::json_text(fields["data"@])
    } else {
        input
    };
    if crate::proto::laws::is_rest(body) {
        lemma_set_line(table, name, body);
    }
}

/// A line of the form `SET`, table, key and value, with a line's end, sets the value.
#[verifier::rlimit(40)]
proof fn lemma_set_line(table: Seq<char>, name: Seq<char>, body: Seq<char>)
    requires
        crate::proto::laws::is_word(table),
        crate::proto::laws::is_word(name),
        crate::proto::laws::is_rest(body),
    ensures
        crate::proto::codec::command_of("SET "@ + table + " "@ + name + " "@ + body + "\r\n"@) == Ok::<
            crate::proto::command::CommandView,
            crate::types::ErrorView,
        >(
            crate::proto::command::CommandView::Put {
                table: text::lower_text(table),
                key: crate::proto::laws::key(name),
                value: vstd::utf8::encode_utf8(body),
            },
        ),
{
    reveal_strlit("SET ");
    reveal_strlit("SET");
    reveal_strlit(" ");
    reveal_strlit("\r\n");
    let none = Seq::<char>::empty();
    let t = crate::proto::laws::spaced(seq!["SET"@, table, name, body]);
    crate::proto::laws::lemma_spaced_texts("SET"@, table, name, body);
    assert("SET "@ + table + " "@ + name + " "@ + body + "\r\n"@ =~= none + t + "\r\n"@);
    assert(t[0] == 'S');
    assert(t.last() == body.last());
    crate::proto::laws::law_white_space_around_a_line_is_ignored(none, t, "\r\n"@);
    crate::proto::laws::law_set_takes_the_rest_as_the_value("SET"@, table, name, body);
    reveal(crate::proto::laws::stands_for);
}

proof fn lemma_field(root: JsonView, name: Seq<char>)
    requires
        name == "uuid"@ || name == "data"@,
    ensures
        query::value_at(root, query::path_parts(name)) == (match root {
            JsonView::Object(m) => if m.contains_key(name) {
                Some(m[name])
            } else {
                None
            },
            _ => None,
        }),
{
    reveal_strlit("uuid");
    reveal_strlit("data");
    assert(!name.contains('.'));
    crate::index::laws::law_path_names_a_field(root, name);
}

/// A dump has one line for each item of a list, in their order; what is no list gives none.
pub proof fn law_dump_has_a_line_for_each_record(payload: Seq<u8>, i: int)
    ensures
        json::parsed_json(payload) matches Some(JsonView::Array(items)) ==> (dump_of(payload) matches Some(
            lines,
        ) && lines.len() == items.len() && (0 <= i < items.len() ==> lines[i] == json::json_text(
            items[i],
        ))),
        !(json::parsed_json(payload) matches Some(JsonView::Array(_))) ==> dump_of(payload) is None,
{
}

/// The record with a number is stored under the key of its number in the table.
#[verifier::rlimit(40)]
pub proof fn law_test_record_is_set_under_its_key(table: Seq<char>, idx: u64)
    requires
        crate::proto::laws::is_word(table),
    ensures
        crate::proto::codec::command_of(test_command(table, idx)) matches Ok(
            crate::proto::command::CommandView::Put { table: t, key, value },
        ) && t == text::lower_text(table) && key == key_for(idx),
{
    reveal_strlit("SET ");
    reveal_strlit(" ");
    reveal_strlit("\r\n");
    reveal_strlit(" {\"name\":\"Player_");
    reveal_strlit("\",\"stats\":{\"kills\":");
    reveal_strlit(",\"wins\":");
    reveal_strlit("}}\r\n");
    let name = types::uuid_text(key_for(idx));
    let a = text::dec_text(idx as nat);
    let b = text::dec_text(score_for(idx, 0x12345678abcdef01) as nat);
    let c = text::dec_text((score_for(idx, 0x9876543210fedcba) % 5000) as nat);
    let open = " {\"name\":\"Player_"@.skip(1);
    let close = "}}\r\n"@.take(2);
    let body = open + a + "\",\"stats\":{\"kills\":"@ + b + ",\"wins\":"@ + c + close;
    assert(test_command(table, idx) =~= "SET "@ + table + " "@ + name + " "@ + body + "\r\n"@);
    assert(body[0] == '{');
    assert(body.last() == '}');
    types::law_key_text_round_trip(key_for(idx));
    types::lemma_uuid_word(key_for(idx));
    lemma_set_line(table, name, body);
}

} // verus!
