//! The text protocol's server: what a session answers to each line, and what a command does to the
//! tables.
use bytes::Bytes;
use vstd::prelude::*;

use crate::index::json::{JsonValue, JsonView};
use crate::index::json;
use crate::index::query::QueryFilter;
use crate::index::query;
use crate::index::secondary::{FieldIndex, IndexView};
use crate::index::secondary;
use crate::proto::codec::CommandParser;
use crate::proto::codec;
use crate::proto::command::{Command, CommandView};
use crate::proto::command;
use crate::proto::reply;
use crate::server::access;
use crate::server::outside::{Outside, World};
use crate::storage::engine::{EngineView, OpView};
use crate::storage::wal::{RecordView, WalRecord};
use crate::storage::{documents, engine, iterator, laws, sstable, wal};
use crate::table::manager::{ManagerView, Table, TableManager, TableState};
use crate::table::manager;
use crate::table::names::KeyNames;
use crate::table::names;
use crate::text;
use crate::types::{ErrorView, OpType, PlayerId, Result};
use crate::types;
use crate::wire;

verus! {

// ---------------------------------------------------------------------------------------------
// Sessions
// ---------------------------------------------------------------------------------------------
/// A session of a client: the password that is asked for, and whether it was given.
pub struct Session {
    require_pass: Option<String>,
    is_authenticated: bool,
}

/// A session, by views.
pub struct SessionView {
    pub pass: Option<Seq<char>>,
    pub authenticated: bool,
}

impl View for Session {
    type V = SessionView;

    closed spec fn view(&self) -> SessionView {
        SessionView {
            pass: command::option_text(self.require_pass),
            authenticated: self.is_authenticated,
        }
    }
}

/// What a session does with a line: nothing, answer, answer and end, or run a command.
pub enum LineStep {
    Skip,
    Reply(Vec<u8>),
    Close(Vec<u8>),
    Run(Command),
}

/// What a session does with a line, by views.
pub enum LineView {
    Skip,
    Reply(Seq<u8>),
    Close(Seq<u8>),
    Run(CommandView),
}

impl View for LineStep {
    type V = LineView;

    open spec fn view(&self) -> LineView {
        match *self {
            LineStep::Skip => LineView::Skip,
            LineStep::Reply(b) => LineView::Reply(b@),
            LineStep::Close(b) => LineView::Close(b@),
            LineStep::Run(c) => LineView::Run(c@),
        }
    }
}

/// What a session that was not authenticated does with a command: it may ask for the password, be
/// greeted, or leave.
pub open spec fn gate(s: SessionView, c: CommandView) -> (SessionView, LineView) {
    match c {
        CommandView::Auth { password } => match s.pass {
            Some(p) => if password == p {
                (
                    SessionView { authenticated: true, ..s },
                    LineView::Reply(reply::line("+OK"@)),
                )
            } else {
                (s, LineView::Reply(reply::line("-ERR invalid password"@)))
            },
            None => (s, LineView::Reply(reply::line("+OK"@))),
        },
        CommandView::Ping => (s, LineView::Reply(reply::line("+PONG"@))),
        CommandView::Quit => (s, LineView::Close(reply::line("+OK"@))),
        _ => (s, LineView::Reply(reply::line("-ERR NOAUTH Authentication required."@))),
    }
}

/// What a session does with a line, and the session after it.
pub open spec fn line_step(s: SessionView, input: Seq<char>) -> (SessionView, LineView) {
    let t = text::trimmed(input);
    if t.len() == 0 {
        (s, LineView::Skip)
    } else {
        match codec::command_of(t) {
            Err(e) => (s, LineView::Reply(reply::failure(e))),
            Ok(c) => if !s.authenticated {
                gate(s, c)
            } else {
                match c {
                    CommandView::Ping => (s, LineView::Reply(reply::line("+PONG"@))),
                    CommandView::Auth { password } => (s, LineView::Reply(reply::line("+OK"@))),
                    CommandView::Quit => (s, LineView::Close(reply::line("+OK"@))),
                    _ => (s, LineView::Run(c)),
                }
            },
        }
    }
}

impl Session {
    /// A new session; without a password nothing has to be given.
    pub fn new(require_pass: Option<String>) -> (r: Self)
        ensures
            r@ == (SessionView {
                pass: command::option_text(require_pass),
                authenticated: require_pass is None,
            }),
    {
        let is_authenticated = require_pass.is_none();
        Session { require_pass, is_authenticated }
    }

    fn gate(&mut self, cmd: &Command) -> (r: LineStep)
        ensures
            (final(self)@, r@) == gate(old(self)@, cmd@),
    {
        match cmd {
            Command::Auth { password } => match &self.require_pass {
                Some(pass) => {
                    if text::text_eq(password.as_str(), pass.as_str()) {
                        self.is_authenticated = true;
                        LineStep::Reply(reply::line_of("+OK"))
                    } else {
                        LineStep::Reply(reply::line_of("-ERR invalid password"))
                    }
                },
                None => LineStep::Reply(reply::line_of("+OK")),
            },
            Command::Ping => LineStep::Reply(reply::line_of("+PONG")),
            Command::Quit => LineStep::Close(reply::line_of("+OK")),
            _ => LineStep::Reply(reply::line_of("-ERR NOAUTH Authentication required.")),
        }
    }

    /// Takes a line.
    pub fn on_line(&mut self, input: &str) -> (r: LineStep)
        ensures
            (final(self)@, r@) == line_step(old(self)@, input@),
    {
        let all = text::chars_of(input);
        let trimmed = text::trim(&all);
        if trimmed.len() == 0 {
            return LineStep::Skip;
        }
        let t = text::string_of(trimmed);
        let cmd = match CommandParser::parse(t.as_str()) {
            Err(e) => {
                return LineStep::Reply(reply::failure_of(&e));
            },
            Ok(c) => c,
        };
        if !self.is_authenticated {
            return self.gate(&cmd);
        }
        match cmd {
            Command::Ping => LineStep::Reply(reply::line_of("+PONG")),
            Command::Auth { password } => LineStep::Reply(reply::line_of("+OK")),
            Command::Quit => LineStep::Close(reply::line_of("+OK")),
            _ => LineStep::Run(cmd),
        }
    }
}

/// A session that asks for a password runs no command until the password was given.
pub proof fn law_no_command_without_password(s: SessionView, input: Seq<char>)
    requires
        !s.authenticated,
        s.pass is Some,
    ensures
        !(line_step(s, input).1 is Run),
        line_step(s, input).0.authenticated ==> codec::command_of(text::trimmed(input))
            == Ok::<CommandView, ErrorView>(CommandView::Auth { password: s.pass.unwrap() }),
{
}

/// A session stays authenticated, and keeps its password.
pub proof fn law_session_stays_authenticated(s: SessionView, input: Seq<char>)
    ensures
        s.authenticated ==> line_step(s, input).0.authenticated,
        line_step(s, input).0.pass == s.pass,
{
}

// ---------------------------------------------------------------------------------------------
// Replies to commands that read
// ---------------------------------------------------------------------------------------------
/// The index of a table's field.
pub open spec fn index_of(m: ManagerView, name: Seq<char>, path: Seq<char>) -> Option<IndexView> {
    match access::table_of(m, name) {
        Some(t) => match secondary::index_place(t.indices, path) {
            Some(i) => Some(t.indices[i]),
            None => None,
        },
        None => None,
    }
}

/// The texts of a table's keys.
pub open spec fn texts_of(m: ManagerView, name: Seq<char>) -> Map<u128, Seq<char>> {
    match access::table_of(m, name) {
        Some(t) => t.names,
        None => Map::empty(),
    }
}

/// The reply of an index, where there is one.
pub open spec fn in_index(
    m: ManagerView,
    name: Seq<char>,
    path: Seq<char>,
    answer: spec_fn(IndexView) -> Seq<u8>,
) -> Seq<u8> {
    match index_of(m, name, path) {
        Some(x) => answer(x),
        None => reply::no_index(name, path),
    }
}

/// What GET may reply.
pub open spec fn get_replies(t: TableState, w: World, key: u128, now_secs: u64, r: Seq<u8>) -> bool {
    exists|got: core::result::Result<Option<Seq<u8>>, ErrorView>| #[trigger]
        access::read_gives(t, w, key, now_secs, got) && r == access::get_reply(got)
}

/// What MGET may reply.
pub open spec fn mget_replies(
    t: TableState,
    w: World,
    keys: Seq<u128>,
    now_secs: u64,
    r: Seq<u8>,
) -> bool {
    exists|got: Seq<core::result::Result<Option<Seq<u8>>, ErrorView>>| #[trigger]
        access::keys_give(t, w, keys, now_secs, got) && r == access::mget_reply(got)
}

/// What EXISTS may reply.
pub open spec fn exists_replies(
    t: TableState,
    w: World,
    keys: Seq<u128>,
    now_secs: u64,
    r: Seq<u8>,
) -> bool {
    exists|got: Seq<core::result::Result<Option<Seq<u8>>, ErrorView>>| #[trigger]
        access::keys_give(t, w, keys, now_secs, got) && r == reply::number(
            access::existing(got) as int,
        )
}

/// What TTL may reply.
pub open spec fn ttl_replies(t: TableState, w: World, key: u128, now_secs: u64, r: Seq<u8>) -> bool {
    exists|left: int| #[trigger]
        access::ttl_gives(t, w, key, now_secs, left) && r == reply::number(left)
}

/// The first rows of a ranking.
pub open spec fn top_rows(x: IndexView, limit: usize) -> Seq<(u128, u64, nat)> {
    secondary::ranked(
        secondary::standings(x.scores),
        0,
        secondary::capped(limit as int, x.scores.len() as int),
    )
}

/// The reply to RANK.
pub open spec fn rank_reply(
    x: IndexView,
    name: Seq<char>,
    key: u128,
    texts: Map<u128, Seq<char>>,
) -> Seq<u8> {
    if !x.scores.contains_key(key) {
        reply::nil()
    } else {
        reply::document(
            JsonView::Object(
                reply::no_fields().insert("uuid"@, JsonView::String(names::shown(texts, key))).insert(
                    "table"@,
                    JsonView::String(name),
                ).insert(
                    "rank"@,
                    reply::count(
                        (secondary::place_in(secondary::standings(x.scores), key) + 1) as nat,
                    ),
                ).insert("score"@, json::float_json(x.scores[key])).insert(
                    "total_ranked"@,
                    reply::count(x.scores.len()),
                ),
            ),
        )
    }
}

/// The rows around a player.
pub open spec fn rows_around_key(x: IndexView, key: u128, limit: usize) -> Seq<(u128, u64, nat)> {
    if limit == 0 {
        Seq::empty()
    } else {
        let s = secondary::standings(x.scores);
        let (first, last) = secondary::around(
            secondary::place_in(s, key) + 1,
            s.len() as int,
            limit as int,
        );
        secondary::rank_rows(s, first, last)
    }
}

/// The reply to RANK.KEY.
pub open spec fn rank_key_reply(
    x: IndexView,
    key: u128,
    limit: usize,
    texts: Map<u128, Seq<char>>,
) -> Seq<u8> {
    if x.scores.contains_key(key) {
        reply::document(reply::rank_list(rows_around_key(x, key, limit), texts))
    } else {
        reply::nil()
    }
}

/// The rows around a score.
pub open spec fn rows_around_score(x: IndexView, score: u64, limit: usize) -> Seq<(u128, u64, nat)> {
    if limit == 0 || x.scores.len() == 0 {
        Seq::empty()
    } else {
        let s = secondary::standings(x.scores);
        let rank = secondary::capped(
            secondary::above_score(s, score) as int + 1,
            s.len() as int,
        );
        let (first, last) = secondary::around(rank, s.len() as int, limit as int);
        secondary::rank_rows(s, first, last)
    }
}

/// The rows between two scores.
pub open spec fn rows_between(x: IndexView, min: u64, max: u64, limit: usize) -> Seq<
    (u128, u64, nat),
> {
    if json::float_less(max, min) {
        Seq::empty()
    } else {
        let s = secondary::standings(x.scores);
        let all = secondary::score_rows(s, min, max, s.len() as int);
        all.take(secondary::capped(limit as int, all.len() as int))
    }
}

/// The reply to SCAN, given what was read.
pub open spec fn scan_reply(
    got: core::result::Result<Seq<(u128, Seq<u8>)>, ErrorView>,
    texts: Map<u128, Seq<char>>,
) -> Seq<u8> {
    match got {
        Ok(s) => reply::document(access::record_list(s, texts)),
        Err(e) => reply::failure(e),
    }
}

/// What SCAN may reply.
pub open spec fn scan_replies(
    t: TableState,
    w: World,
    start: Option<PlayerId>,
    end: Option<PlayerId>,
    limit: usize,
    now_secs: u64,
    r: Seq<u8>,
) -> bool {
    exists|got: core::result::Result<Seq<(u128, Seq<u8>)>, ErrorView>| #[trigger]
        access::scan_gives(t, w, start, end, limit as nat, now_secs, got) && r == scan_reply(
            got,
            t.names,
        )
}

/// The reply to FILTER, given what was read.
pub open spec fn filter_reply(
    got: core::result::Result<Seq<(u128, Seq<u8>)>, ErrorView>,
    filter: query::ExpressionView,
    near: spec_fn(u64, u64) -> Option<bool>,
    limit: usize,
    texts: Map<u128, Seq<char>>,
) -> Seq<u8> {
    match got {
        Err(e) => reply::failure(e),
        Ok(s) => reply::document(
            access::record_list(
                iterator::first(documents::matching(s, Some(filter), near), limit as nat),
                texts,
            ),
        ),
    }
}

/// What FILTER may reply.
pub open spec fn filter_replies(
    t: TableState,
    w: World,
    input: Seq<char>,
    limit: usize,
    now_secs: u64,
    r: Seq<u8>,
) -> bool {
    match query::filter_of(input) {
        Err(e) => r == reply::failure(e),
        Ok(f) => exists|got: core::result::Result<Seq<(u128, Seq<u8>)>, ErrorView>| #[trigger]
            access::records_give(t, w, now_secs, got) && r == filter_reply(
                got,
                f,
                w.near,
                limit,
                t.names,
            ),
    }
}

/// The number of records that meet a filter, given what was read.
pub open spec fn count_reply(
    got: core::result::Result<Seq<(u128, Seq<u8>)>, ErrorView>,
    filter: Option<query::ExpressionView>,
    near: spec_fn(u64, u64) -> Option<bool>,
) -> Seq<u8> {
    match got {
        Err(e) => reply::failure(e),
        Ok(s) => reply::number(documents::matching(s, filter, near).len() as int),
    }
}

/// What counting the records that meet a filter may reply.
pub open spec fn counted(
    t: TableState,
    w: World,
    filter: Option<query::ExpressionView>,
    now_secs: u64,
    r: Seq<u8>,
) -> bool {
    exists|got: core::result::Result<Seq<(u128, Seq<u8>)>, ErrorView>| #[trigger]
        access::records_give(t, w, now_secs, got) && r == count_reply(got, filter, w.near)
}

/// What COUNT may reply.
pub open spec fn count_replies(
    t: TableState,
    w: World,
    input: Option<Seq<char>>,
    now_secs: u64,
    r: Seq<u8>,
) -> bool {
    match input {
        None => counted(t, w, None, now_secs, r),
        Some(q) => match query::filter_of(q) {
            Err(e) => r == reply::failure(e),
            Ok(f) => counted(t, w, Some(f), now_secs, r),
        },
    }
}

/// The sum of some sizes; it wraps around.
pub open spec fn sum(sizes: Seq<u64>) -> u64
    decreases sizes.len(),
{
    if sizes.len() == 0 {
        0
    } else {
        sum(sizes.drop_last()).wrapping_add(sizes.last())
    }
}

/// What sizes the files of some tables may be told to have, one table after the other.
pub open spec fn sizes_told(s: Seq<TableState>, w: World, sizes: Seq<u64>) -> bool {
    &&& sizes.len() == s.len()
    &&& forall|i: int| 0 <= i < sizes.len() ==> w.tells_size(s[i].name, #[trigger] sizes[i])
}

/// What total size the files of some tables may be told to have.
pub open spec fn total_told(s: Seq<TableState>, w: World, total: u64) -> bool {
    exists|sizes: Seq<u64>| #[trigger] sizes_told(s, w, sizes) && total == sum(sizes)
}

/// The figures of a table, given the number of its records and the size of its files.
pub open spec fn table_stats(t: TableState, records: Option<u64>, size: u64) -> Map<
    Seq<char>,
    JsonView,
> {
    let v = t.engine;
    reply::no_fields().insert("table"@, JsonView::String(t.name)).insert(
        "total_records"@,
        access::records_json(records),
    ).insert("active_memtable_entries"@, reply::count(v.memory.len())).insert(
        "immutable_memtables"@,
        reply::count(engine::waiting_total(v.waiting, v.waiting.len() as int) as nat),
    ).insert("sstable_count"@, reply::count(v.tables.len())).insert(
        "disk_size_bytes"@,
        reply::count(size as nat),
    )
}

/// What the figures of a table may be.
pub open spec fn stats_give(t: TableState, w: World, fields: Map<Seq<char>, JsonView>) -> bool {
    exists|records: Option<u64>, size: u64| #[trigger]
        access::total_gives(t, w, records) && #[trigger] w.tells_size(t.name, size) && fields
            == table_stats(t, records, size)
}

/// What STATS may reply.
pub open spec fn stats_replies(
    m: ManagerView,
    w: World,
    table: Option<Seq<char>>,
    r: Seq<u8>,
) -> bool {
    match table {
        Some(name) => match access::table_of(m, name) {
            Some(t) => exists|fields: Map<Seq<char>, JsonView>| #[trigger]
                stats_give(t, w, fields) && r == reply::pretty_document(
                    JsonView::Object(
                        fields.insert(
                            "indexed_fields"@,
                            reply::text_items(secondary::index_paths(t.indices)),
                        ),
                    ),
                ),
            None => r == reply::line("-ERR Table not found"@),
        },
        None => exists|total: u64| #[trigger]
            total_told(m.tables, w, total) && r == reply::pretty_document(
                JsonView::Object(
                    reply::no_fields().insert(
                        "tables"@,
                        reply::text_items(manager::names_of(m.tables)),
                    ).insert("total_disk_size_bytes"@, reply::count(total as nat)),
                ),
            ),
    }
}

/// The reply to INDEX LIST.
pub open spec fn index_list_reply(m: ManagerView, name: Seq<char>) -> Seq<u8> {
    match access::table_of(m, name) {
        Some(t) => reply::document(reply::text_items(secondary::index_paths(t.indices))),
        None => reply::line("$2"@) + reply::line("[]"@),
    }
}

fn answer_get<
    R: Fn(&str, u64, u64, u64) -> Result<Vec<u8>>,
    D: Fn(&str) -> u64,
    N: Fn(u64, u64) -> Option<bool>,
    H: Fn(u64) -> String,
>(t: &Table, key: &PlayerId, now_secs: u64, out: &Outside<R, D, N, H>) -> (r: Vec<u8>)
    requires
        out.usable(),
        t.wf(),
    ensures
        get_replies(t@, out.world(), key.0, now_secs, r@),
{
    let got = out.get(t, key, now_secs);
    assert(access::read_gives(t@, out.world(), key.0, now_secs, engine::read_view(got)));
    match got {
        Ok(Some(v)) => reply::bulk_of(&*v),
        Ok(None) => reply::nil_reply(),
        Err(e) => reply::failure_of(&e),
    }
}

fn answer_mget<
    R: Fn(&str, u64, u64, u64) -> Result<Vec<u8>>,
    D: Fn(&str) -> u64,
    N: Fn(u64, u64) -> Option<bool>,
    H: Fn(u64) -> String,
>(t: &Table, keys: &Vec<PlayerId>, now_secs: u64, out: &Outside<R, D, N, H>) -> (r: Vec<u8>)
    requires
        out.usable(),
        t.wf(),
    ensures
        mget_replies(t@, out.world(), command::keys_view(keys@), now_secs, r@),
{
    let ghost kv = command::keys_view(keys@);
    let ghost w = out.world();
    let ghost mut heard: Seq<core::result::Result<Option<Seq<u8>>, ErrorView>> = Seq::empty();
    let mut head = "*".to_owned();
    text::push_text(&mut head, text::to_dec(keys.len() as u64).as_str());
    let mut buf = reply::line_of(head.as_str());
    let ghost first = buf@;
    let mut i: usize = 0;
    assert(first + Seq::empty() =~= first);
    while i < keys.len()
        invariant
            i <= keys@.len(),
            out.usable(),
            t.wf(),
            kv == command::keys_view(keys@),
            w == out.world(),
            heard.len() == i,
            forall|j: int|
                0 <= j < i ==> access::read_gives(t@, w, kv[j], now_secs, #[trigger] heard[j]),
            buf@ == first + access::values_reply(heard),
        decreases keys@.len() - i,
    {
        let ghost held = buf@;
        let ghost old_heard = heard;
        let got = out.get(t, &keys[i], now_secs);
        proof {
            assert(kv[i as int] == keys@[i as int].0);
            heard = old_heard.push(engine::read_view(got));
            assert(heard.drop_last() =~= old_heard);
        }
        let item = match got {
            Ok(Some(v)) => reply::bulk_of(&*v),
            _ => reply::nil_reply(),
        };
        buf.extend_from_slice(&item);
        proof {
            assert(buf@ =~= held + item@);
            let rest = access::values_reply(old_heard);
            assert((first + rest) + item@ =~= first + (rest + item@));
        }
        i = i + 1;
    }
    assert(access::keys_give(t@, w, kv, now_secs, heard));
    buf
}

fn answer_exists<
    R: Fn(&str, u64, u64, u64) -> Result<Vec<u8>>,
    D: Fn(&str) -> u64,
    N: Fn(u64, u64) -> Option<bool>,
    H: Fn(u64) -> String,
>(t: &Table, keys: &Vec<PlayerId>, now_secs: u64, out: &Outside<R, D, N, H>) -> (r: Vec<u8>)
    requires
        out.usable(),
        t.wf(),
    ensures
        exists_replies(t@, out.world(), command::keys_view(keys@), now_secs, r@),
{
    let ghost kv = command::keys_view(keys@);
    let ghost w = out.world();
    let ghost mut heard: Seq<core::result::Result<Option<Seq<u8>>, ErrorView>> = Seq::empty();
    let mut count: u64 = 0;
    let mut i: usize = 0;
    while i < keys.len()
        invariant
            i <= keys@.len(),
            count <= i,
            out.usable(),
            t.wf(),
            kv == command::keys_view(keys@),
            w == out.world(),
            heard.len() == i,
            forall|j: int|
                0 <= j < i ==> access::read_gives(t@, w, kv[j], now_secs, #[trigger] heard[j]),
            count == access::existing(heard),
        decreases keys@.len() - i,
    {
        let n: usize = keys.len();
        let ghost old_heard = heard;
        let there = out.exists_in(t, &keys[i], now_secs);
        proof {
            let got = choose|got: core::result::Result<Option<Seq<u8>>, ErrorView>| #[trigger]
                engine::value_gives(
                    w.reads_of(t@.name),
                    t@.engine,
                    keys@[i as int].0,
                    now_secs,
                    got,
                ) && there == engine::is_there(got);
            assert(kv[i as int] == keys@[i as int].0);
            assert(access::read_gives(t@, w, kv[i as int], now_secs, got));
            heard = old_heard.push(got);
            assert(heard.drop_last() =~= old_heard);
        }
        if there {
            count = count + 1;
        }
        i = i + 1;
    }
    assert(access::keys_give(t@, w, kv, now_secs, heard));
    reply::number_of(count)
}

fn answer_rank(x: &FieldIndex, name: &str, key: &PlayerId, texts: &KeyNames) -> (r: Vec<u8>)
    requires
        x.wf(),
    ensures
        r@ == rank_reply(x@, name@, key.0, texts@),
{
    match x.get_rank(key) {
        None => reply::nil_reply(),
        Some((rank, score)) => {
            let v = query::with_field(
                reply::new_object(),
                "uuid",
                JsonValue::from_text(texts.shown(key).as_str()),
            );
            let v = query::with_field(v, "table", JsonValue::from_text(name));
            let v = query::with_field(v, "rank", JsonValue::from_u64(rank as u64));
            let v = query::with_field(v, "score", JsonValue::from_bits(score));
            let v = query::with_field(v, "total_ranked", JsonValue::from_u64(x.len() as u64));
            reply::document_of(&v)
        },
    }
}

fn answer_scan<
    R: Fn(&str, u64, u64, u64) -> Result<Vec<u8>>,
    D: Fn(&str) -> u64,
    N: Fn(u64, u64) -> Option<bool>,
    H: Fn(u64) -> String,
>(
    t: &Table,
    start: Option<PlayerId>,
    end: Option<PlayerId>,
    limit: usize,
    now_secs: u64,
    out: &Outside<R, D, N, H>,
) -> (r: Vec<u8>)
    requires
        out.usable(),
        t.wf(),
    ensures
        scan_replies(t@, out.world(), start, end, limit, now_secs, r@),
{
    let got = out.scan(t, start, end, limit, now_secs);
    assert(access::scan_gives(
        t@,
        out.world(),
        start,
        end,
        limit as nat,
        now_secs,
        iterator::pairs_result(got),
    ));
    match got {
        Ok(rows) => reply::document_of(&access::record_array(&rows, &t.key_names)),
        Err(e) => reply::failure_of(&e),
    }
}

fn answer_filter<
    R: Fn(&str, u64, u64, u64) -> Result<Vec<u8>>,
    D: Fn(&str) -> u64,
    N: Fn(u64, u64) -> Option<bool>,
    H: Fn(u64) -> String,
>(
    t: &Table,
    input: &str,
    limit: usize,
    now_secs: u64,
    out: &Outside<R, D, N, H>,
) -> (r: Vec<u8>)
    requires
        out.usable(),
        t.wf(),
    ensures
        filter_replies(t@, out.world(), input@, limit, now_secs, r@),
{
    let filter = match QueryFilter::parse(input) {
        Err(e) => {
            return reply::failure_of(&e);
        },
        Ok(f) => f,
    };
    let got = out.scan(t, None, None, documents::SCAN_LIMIT, now_secs);
    assert(access::records_give(t@, out.world(), now_secs, iterator::pairs_result(got)));
    match got {
        Err(e) => reply::failure_of(&e),
        Ok(all) => {
            let rows = access::first_matching(&all, &filter, limit, &out.near);
            reply::document_of(&access::record_array(&rows, &t.key_names))
        },
    }
}

fn answer_count<
    R: Fn(&str, u64, u64, u64) -> Result<Vec<u8>>,
    D: Fn(&str) -> u64,
    N: Fn(u64, u64) -> Option<bool>,
    H: Fn(u64) -> String,
>(t: &Table, input: &Option<String>, now_secs: u64, out: &Outside<R, D, N, H>) -> (r: Vec<u8>)
    requires
        out.usable(),
        t.wf(),
    ensures
        count_replies(t@, out.world(), command::option_text(*input), now_secs, r@),
{
    let counted = match input {
        None => out.count(t, None, now_secs),
        Some(q) => match QueryFilter::parse(q.as_str()) {
            Err(e) => {
                return reply::failure_of(&e);
            },
            Ok(f) => out.count(t, Some(&f), now_secs),
        },
    };
    match counted {
        Ok(n) => reply::number_of(n as u64),
        Err(e) => reply::failure_of(&e),
    }
}

/// The total size of the files of all tables.
pub fn total_disk_size_bytes<
    R: Fn(&str, u64, u64, u64) -> Result<Vec<u8>>,
    D: Fn(&str) -> u64,
    N: Fn(u64, u64) -> Option<bool>,
    H: Fn(u64) -> String,
>(m: &TableManager, out: &Outside<R, D, N, H>) -> (r: u64)
    requires
        out.usable(),
        m.wf(),
    ensures
        total_told(m@.tables, out.world(), r),
{
    let ghost w = out.world();
    let ghost mut heard: Seq<u64> = Seq::empty();
    let names = m.list_tables();
    let ghost view = m@.tables;
    let mut total: u64 = 0;
    let mut i: usize = 0;
    assert(names@.len() == engine::texts(names@).len());
    while i < names.len()
        invariant
            i <= names@.len(),
            names@.len() == view.len(),
            out.usable(),
            engine::texts(names@) == manager::names_of(view),
            w == out.world(),
            heard.len() == i,
            forall|j: int| 0 <= j < i ==> w.tells_size(view[j].name, #[trigger] heard[j]),
            total == sum(heard),
        decreases names@.len() - i,
    {
        let ghost old_heard = heard;
        let size: u64 = out.size_of(names[i].as_str());
        proof {
            assert(engine::texts(names@)[i as int] == manager::names_of(view)[i as int]);
            heard = old_heard.push(size);
            assert(heard.drop_last() =~= old_heard);
        }
        total = total.wrapping_add(size);
        i = i + 1;
    }
    assert(sizes_told(view, w, heard));
    total
}

/// The figures of a table, as the fields of a document.
pub fn stats_fields<
    R: Fn(&str, u64, u64, u64) -> Result<Vec<u8>>,
    D: Fn(&str) -> u64,
    N: Fn(u64, u64) -> Option<bool>,
    H: Fn(u64) -> String,
>(t: &Table, out: &Outside<R, D, N, H>) -> (r: JsonValue)
    requires
        out.usable(),
        t.wf(),
    ensures
        r is Object,
        json::doc_ok(r),
        r@ is Object,
        stats_give(t@, out.world(), r@->Object_0),
{
    let (mem, imm, sst) = t.engine.stats();
    let records = out.total_entries(t);
    let total = access::records_value(records);
    let disk: u64 = out.size_of(t.name.as_str());
    assert(access::total_gives(t@, out.world(), records));
    assert(out.world().tells_size(t@.name, disk));
    let v = query::with_field(
        reply::new_object(),
        "table",
        JsonValue::from_text(t.name.as_str()),
    );
    let v = query::with_field(v, "total_records", total);
    let v = query::with_field(v, "active_memtable_entries", JsonValue::from_u64(mem as u64));
    let v = query::with_field(v, "immutable_memtables", JsonValue::from_u64(imm as u64));
    let v = query::with_field(v, "sstable_count", JsonValue::from_u64(sst as u64));
    query::with_field(v, "disk_size_bytes", JsonValue::from_u64(disk))
}

fn answer_stats<
    R: Fn(&str, u64, u64, u64) -> Result<Vec<u8>>,
    D: Fn(&str) -> u64,
    N: Fn(u64, u64) -> Option<bool>,
    H: Fn(u64) -> String,
>(m: &TableManager, table: &Option<String>, out: &Outside<R, D, N, H>) -> (r: Vec<u8>)
    requires
        out.usable(),
        m.wf(),
    ensures
        stats_replies(m@, out.world(), command::option_text(*table), r@),
{
    match table {
        Some(name) => match m.get_table(name.as_str()) {
            None => reply::line_of("-ERR Table not found"),
            Some(t) => {
                let list = t.index_manager.list_indices();
                proof {
                    assert(engine::texts(list@) =~= secondary::texts_view(list@));
                }
                let fields = stats_fields(t, out);
                assert(stats_give(t@, out.world(), fields@->Object_0));
                let v = query::with_field(
                    fields,
                    "indexed_fields",
                    reply::text_array(&list),
                );
                reply::pretty_document_of(&v)
            },
        },
        None => {
            let v = query::with_field(
                reply::new_object(),
                "tables",
                reply::text_array(&m.list_tables()),
            );
            let total: u64 = total_disk_size_bytes(m, out);
            assert(total_told(m@.tables, out.world(), total));
            let v = query::with_field(
                v,
                "total_disk_size_bytes",
                JsonValue::from_u64(total),
            );
            reply::pretty_document_of(&v)
        },
    }
}

fn answer_index_list(m: &TableManager, table: &str) -> (r: Vec<u8>)
    requires
        m.wf(),
    ensures
        r@ == index_list_reply(m@, table@),
{
    match m.get_table(table) {
        Some(t) => {
            let list = t.index_manager.list_indices();
            proof {
                assert(engine::texts(list@) =~= secondary::texts_view(list@));
            }
            reply::document_of(&reply::text_array(&list))
        },
        None => {
            let mut buf = reply::line_of("$2");
            let ghost first = buf@;
            let rest = reply::line_of("[]");
            buf.extend_from_slice(&rest);
            assert(buf@ =~= first + rest@);
            buf
        },
    }
}

// ---------------------------------------------------------------------------------------------
// Writes
// ---------------------------------------------------------------------------------------------
/// What follows once the records of a write are in the log.
pub enum Then {
    Put,
    Mset(Vec<(PlayerId, Bytes)>),
    Delete,
}

/// A write whose records belong into the log of its table before it goes on.
pub struct PendingWrite {
    pub table: String,
    pub operations: Vec<(PlayerId, Option<Bytes>, OpType)>,
    pub seq_num: u64,
    pub timestamp: u64,
    pub records: Vec<WalRecord>,
    pub next: Then,
}

/// What follows a write, by views.
pub enum ThenView {
    Put,
    Mset(Seq<(u128, Seq<u8>)>),
    Delete,
}

/// A write, by views.
pub struct PendingView {
    pub table: Seq<char>,
    pub ops: Seq<OpView>,
    pub seq_num: u64,
    pub timestamp: u64,
    pub records: Seq<RecordView>,
    pub next: ThenView,
}

impl View for Then {
    type V = ThenView;

    open spec fn view(&self) -> ThenView {
        match *self {
            Then::Put => ThenView::Put,
            Then::Mset(rest) => ThenView::Mset(iterator::pairs_view(rest@)),
            Then::Delete => ThenView::Delete,
        }
    }
}

impl View for PendingWrite {
    type V = PendingView;

    open spec fn view(&self) -> PendingView {
        PendingView {
            table: self.table@,
            ops: engine::ops_view(self.operations@),
            seq_num: self.seq_num,
            timestamp: self.timestamp,
            records: wal::records_view(self.records@),
            next: self.next@,
        }
    }
}

/// What a command asks for next: its reply is sent, records are logged, a table is opened, the
/// tables are copied, or a command is to be run again once another write of its key has ended.
pub enum Step {
    Reply(Vec<u8>),
    Log(PendingWrite),
    Create(String),
    Backup(Option<String>),
    Wait(Command),
}

/// What a command asks for next, by views.
pub enum StepView {
    Reply(Seq<u8>),
    Log(PendingView),
    Create(Seq<char>),
    Backup(Option<Seq<char>>),
    Wait(CommandView),
}

impl View for Step {
    type V = StepView;

    open spec fn view(&self) -> StepView {
        match *self {
            Step::Reply(b) => StepView::Reply(b@),
            Step::Log(p) => StepView::Log(p@),
            Step::Create(name) => StepView::Create(name@),
            Step::Backup(dir) => StepView::Backup(command::option_text(dir)),
            Step::Wait(cmd) => StepView::Wait(cmd@),
        }
    }
}

/// The indices after a value was put.
pub open spec fn put_indices(s: Seq<IndexView>, key: u128, value: Seq<u8>) -> Seq<IndexView> {
    Seq::new(s.len(), |i: int| secondary::after_put(s[i], key, value))
}

/// The indices after a key was deleted.
pub open spec fn delete_indices(s: Seq<IndexView>, key: u128) -> Seq<IndexView> {
    Seq::new(
        s.len(),
        |i: int| IndexView { path: s[i].path, scores: s[i].scores.remove(key) },
    )
}

/// A table in which a batch was numbered.
pub open spec fn numbered(t: TableState, n: nat) -> TableState {
    TableState {
        engine: EngineView {
            next_seq: wal::seq_after(t.engine.next_seq, n as int),
            ..t.engine
        },
        ..t
    }
}

/// The write that a batch on a table starts.
pub open spec fn pending_of(t: TableState, ops: Seq<OpView>, now_ms: u64, next: ThenView) -> PendingView {
    PendingView {
        table: t.name,
        ops,
        seq_num: t.engine.next_seq,
        timestamp: now_ms,
        records: engine::batch_records(ops, t.engine.next_seq, now_ms),
        next,
    }
}

/// A table after a put was started: the indices follow at once, and the key is held.
pub open spec fn put_started(t: TableState, key: u128, value: Seq<u8>) -> TableState {
    numbered(
        TableState {
            indices: put_indices(t.indices, key, value),
            held: t.held.insert(key),
            ..t
        },
        1,
    )
}

/// A table after a delete was started; the key is held.
pub open spec fn delete_started(t: TableState, key: u128) -> TableState {
    numbered(
        TableState { indices: delete_indices(t.indices, key), held: t.held.insert(key), ..t },
        1,
    )
}

fn start_put(t: &mut Table, key: PlayerId, value: Bytes, now_ms: u64, next: Then) -> (r: PendingWrite)
    requires
        old(t).wf(),
    ensures
        final(t).wf(),
        final(t)@ == put_started(old(t)@, key.0, wire::bytes_view(value)),
        r@ == pending_of(
            old(t)@,
            engine::put_ops(key.0, wire::bytes_view(value)),
            now_ms,
            next@,
        ),
{
    let ghost ops = engine::put_ops(key.0, wire::bytes_view(value));
    t.held_keys.hold(&key);
    t.index_manager.on_put(key, &*value);
    let mut operations: Vec<(PlayerId, Option<Bytes>, OpType)> = Vec::new();
    operations.push((key, Some(value), OpType::Put));
    assert(engine::ops_view(operations@) =~= ops);
    let (seq_num, timestamp, records) = t.engine.begin_batch(&operations, now_ms);
    PendingWrite {
        table: t.name.as_str().to_owned(),
        operations,
        seq_num,
        timestamp,
        records,
        next,
    }
}

fn start_delete(t: &mut Table, key: PlayerId, now_ms: u64) -> (r: PendingWrite)
    requires
        old(t).wf(),
    ensures
        final(t).wf(),
        final(t)@ == delete_started(old(t)@, key.0),
        r@ == pending_of(old(t)@, engine::delete_ops(key.0), now_ms, ThenView::Delete),
{
    t.held_keys.hold(&key);
    t.index_manager.on_delete(key);
    let mut operations: Vec<(PlayerId, Option<Bytes>, OpType)> = Vec::new();
    operations.push((key, None, OpType::Delete));
    assert(engine::ops_view(operations@) =~= engine::delete_ops(key.0));
    let (seq_num, timestamp, records) = t.engine.begin_batch(&operations, now_ms);
    PendingWrite {
        table: t.name.as_str().to_owned(),
        operations,
        seq_num,
        timestamp,
        records,
        next: Then::Delete,
    }
}

/// A table after a list of puts was started with the first, unless that has to wait.
pub open spec fn mset_started(t: TableState, entries: Seq<(u128, Seq<u8>)>) -> TableState {
    if entries.len() == 0 || t.held.contains(entries[0].0) {
        t
    } else {
        put_started(t, entries[0].0, entries[0].1)
    }
}

/// What a list of puts asks for next: the records of the first are logged; without any it is done.
/// Where another write of the first key has not ended, the list waits.
pub open spec fn mset_step(t: TableState, entries: Seq<(u128, Seq<u8>)>, now_ms: u64) -> StepView {
    if entries.len() == 0 {
        StepView::Reply(reply::line("+OK"@))
    } else if t.held.contains(entries[0].0) {
        StepView::Wait(CommandView::Mset { table: t.name, entries })
    } else {
        StepView::Log(
            pending_of(
                t,
                engine::put_ops(entries[0].0, entries[0].1),
                now_ms,
                ThenView::Mset(entries.skip(1)),
            ),
        )
    }
}

fn start_mset(t: &mut Table, entries: Vec<(PlayerId, Bytes)>, now_ms: u64) -> (r: Step)
    requires
        old(t).wf(),
    ensures
        final(t).wf(),
        final(t)@ == mset_started(old(t)@, iterator::pairs_view(entries@)),
        r@ == mset_step(old(t)@, iterator::pairs_view(entries@), now_ms),
{
    let mut rest = entries;
    let ghost view = iterator::pairs_view(rest@);
    if rest.len() == 0 {
        return Step::Reply(reply::line_of("+OK"));
    }
    let first: PlayerId = rest[0].0;
    assert(view[0].0 == first.0);
    if t.held_keys.holds(&first) {
        return Step::Wait(Command::Mset { table: t.name.as_str().to_owned(), entries: rest });
    }
    let (key, value) = rest.remove(0);
    proof {
        assert(view[0] == (key.0, wire::bytes_view(value)));
        assert(iterator::pairs_view(rest@) =~= view.skip(1));
    }
    Step::Log(start_put(t, key, value, now_ms, Then::Mset(rest)))
}

/// The held keys without those of some operations.
pub open spec fn freed(held: Set<u128>, ops: Seq<OpView>) -> Set<u128>
    decreases ops.len(),
{
    if ops.len() == 0 {
        held
    } else {
        freed(held, ops.drop_last()).remove(ops.last().key)
    }
}

/// A table after a write ended: its keys are held no more.
pub open spec fn write_ended(t: TableState, p: PendingView) -> TableState {
    TableState { held: freed(t.held, p.ops), ..t }
}

/// A table after a batch that is in the log.
pub open spec fn batch_applied(t: TableState, p: PendingView) -> TableState {
    TableState {
        engine: engine::after_batch(t.engine, p.ops, p.seq_num, p.timestamp),
        ..write_ended(t, p)
    }
}

fn free_keys(t: &mut Table, operations: &Vec<(PlayerId, Option<Bytes>, OpType)>)
    requires
        old(t).wf(),
    ensures
        final(t).wf(),
        final(t)@ == (TableState {
            held: freed(old(t)@.held, engine::ops_view(operations@)),
            ..old(t)@
        }),
{
    let ghost ops = engine::ops_view(operations@);
    let ghost before = t@;
    let mut i: usize = 0;
    assert(ops.take(0) =~= Seq::empty());
    while i < operations.len()
        invariant
            i <= operations@.len(),
            ops == engine::ops_view(operations@),
            ops.len() == operations@.len(),
            t.wf(),
            t@ == (TableState { held: freed(before.held, ops.take(i as int)), ..before }),
        decreases operations@.len() - i,
    {
        assert(ops.take(i + 1).drop_last() =~= ops.take(i as int));
        assert(ops.take(i + 1).last() == ops[i as int]);
        t.held_keys.release(&operations[i].0);
        i = i + 1;
    }
    assert(ops.take(i as int) =~= ops);
}

/// What a write does once the log was written: its keys are held no more. Where writing the log
/// failed nothing is applied, and the error is the reply, except that a delete is always
/// acknowledged.
pub open spec fn write_goes_on(
    before: ManagerView,
    p: PendingView,
    logged: Result<()>,
    now_ms: u64,
    after: ManagerView,
    step: StepView,
) -> bool {
    match (manager::table_place(before.tables, p.table), logged) {
        (None, Err(e)) => after == before && step == StepView::Reply(
            if p.next is Delete {
                reply::number(1)
            } else {
                reply::failure(e@)
            },
        ),
        (None, Ok(_)) => after == before && step == StepView::Reply(
            if p.next is Delete {
                reply::number(1)
            } else {
                reply::line("+OK"@)
            },
        ),
        (Some(i), Err(e)) => after == with_state(before, i, write_ended(before.tables[i], p))
            && step == StepView::Reply(
            if p.next is Delete {
                reply::number(1)
            } else {
                reply::failure(e@)
            },
        ),
        (Some(i), Ok(_)) => {
            let t = batch_applied(before.tables[i], p);
            match p.next {
                ThenView::Put => step == StepView::Reply(reply::line("+OK"@)) && after
                    == with_state(before, i, t),
                ThenView::Delete => step == StepView::Reply(reply::number(1)) && after
                    == with_state(before, i, t),
                ThenView::Mset(rest) => step == mset_step(t, rest, now_ms) && after == with_state(
                    before,
                    i,
                    mset_started(t, rest),
                ),
            }
        },
    }
}

/// A server one of whose tables has changed.
pub open spec fn with_state(m: ManagerView, i: int, t: TableState) -> ManagerView {
    ManagerView { tables: m.tables.update(i, t), ..m }
}

/// Goes on with a write, given how writing its records to the log ended.
pub fn on_logged(m: &mut TableManager, p: PendingWrite, logged: Result<()>, now_ms: u64) -> (r: Step)
    requires
        old(m).wf(),
    ensures
        final(m).wf(),
        write_goes_on(old(m)@, p@, logged, now_ms, final(m)@, r@),
{
    match logged {
        Err(e) => {
            if let Some(i) = m.find_table(p.table.as_str()) {
                free_keys(m.table_at_mut(i), &p.operations);
            }
            match p.next {
                Then::Delete => Step::Reply(reply::number_of(1)),
                _ => Step::Reply(reply::failure_of(&e)),
            }
        },
        Ok(_) => match m.find_table(p.table.as_str()) {
            None => match p.next {
                Then::Delete => Step::Reply(reply::number_of(1)),
                _ => Step::Reply(reply::line_of("+OK")),
            },
            Some(i) => {
                let t = m.table_at_mut(i);
                free_keys(t, &p.operations);
                t.engine.finish_batch(p.operations, p.seq_num, p.timestamp);
                match p.next {
                    Then::Put => Step::Reply(reply::line_of("+OK")),
                    Then::Delete => Step::Reply(reply::number_of(1)),
                    Then::Mset(rest) => start_mset(t, rest, now_ms),
                }
            },
        },
    }
}

// ---------------------------------------------------------------------------------------------
// Commands
// ---------------------------------------------------------------------------------------------
/// A table whose memory table was rotated.
pub open spec fn flushed_table(t: TableState) -> TableState {
    TableState { engine: engine::rotated(t.engine), ..t }
}

/// The tables with their memory tables rotated.
pub open spec fn flushed_tables(s: Seq<TableState>) -> Seq<TableState> {
    Seq::new(s.len(), |i: int| flushed_table(s[i]))
}

/// What a command on a table may reply: the table answers, where there is one.
pub open spec fn table_replies(
    m: ManagerView,
    name: Seq<char>,
    r: Option<Seq<u8>>,
    answers: spec_fn(TableState, Seq<u8>) -> bool,
) -> bool {
    match access::table_of(m, name) {
        Some(t) => r matches Some(b) && answers(t, b),
        None => r == Some(reply::no_table(name)),
    }
}

/// What a command that changes nothing may reply; none to any other command.
pub open spec fn reading_replies(
    m: ManagerView,
    c: CommandView,
    now_secs: u64,
    w: World,
    r: Option<Seq<u8>>,
) -> bool {
    match c {
        CommandView::Ping => r == Some(reply::line("+PONG"@)),
        CommandView::Auth { password } => r == Some(reply::line("+OK"@)),
        CommandView::Quit => r == Some(reply::line("+OK"@)),
        CommandView::Tables => r == Some(
            reply::document(reply::text_items(manager::names_of(m.tables))),
        ),
        CommandView::Get { table, key } => table_replies(
            m,
            table,
            r,
            |t: TableState, b: Seq<u8>| get_replies(t, w, key, now_secs, b),
        ),
        CommandView::Mget { table, keys } => table_replies(
            m,
            table,
            r,
            |t: TableState, b: Seq<u8>| mget_replies(t, w, keys, now_secs, b),
        ),
        CommandView::Exists { table, keys } => table_replies(
            m,
            table,
            r,
            |t: TableState, b: Seq<u8>| exists_replies(t, w, keys, now_secs, b),
        ),
        CommandView::Ttl { table, key } => table_replies(
            m,
            table,
            r,
            |t: TableState, b: Seq<u8>| ttl_replies(t, w, key, now_secs, b),
        ),
        CommandView::Scan { table, start, end, limit } => table_replies(
            m,
            table,
            r,
            |t: TableState, b: Seq<u8>| scan_replies(t, w, start, end, limit, now_secs, b),
        ),
        CommandView::Filter { table, query, limit } => table_replies(
            m,
            table,
            r,
            |t: TableState, b: Seq<u8>| filter_replies(t, w, query, limit, now_secs, b),
        ),
        CommandView::Count { table, query } => table_replies(
            m,
            table,
            r,
            |t: TableState, b: Seq<u8>| count_replies(t, w, query, now_secs, b),
        ),
        CommandView::IndexList { table } => r == Some(index_list_reply(m, table)),
        CommandView::Stats { table } => r matches Some(b) && stats_replies(m, w, table, b),
        _ => r == ranking_reply(m, c),
    }
}

/// The command changes nothing: it is answered by a reply alone.
pub open spec fn is_reading(c: CommandView) -> bool {
    !(c is CreateTable || c is Backup || c is Flush || c is Put || c is Mset || c is Delete
        || c is JsonSet || c is Expire || c is IndexCreate)
}

/// The reply to a command on a ranking.
pub open spec fn ranking_reply(m: ManagerView, c: CommandView) -> Option<Seq<u8>> {
    match c {
        CommandView::Top { table, path, limit } => Some(
            in_index(
                m,
                table,
                path,
                |x: IndexView|
                    reply::document(reply::rank_list(top_rows(x, limit), texts_of(m, table))),
            ),
        ),
        CommandView::Rank { table, path, key } => Some(
            in_index(
                m,
                table,
                path,
                |x: IndexView| rank_reply(x, table, key, texts_of(m, table)),
            ),
        ),
        CommandView::RankKey { table, path, key, limit } => Some(
            in_index(
                m,
                table,
                path,
                |x: IndexView| rank_key_reply(x, key, limit, texts_of(m, table)),
            ),
        ),
        CommandView::RankScore { table, path, score, limit } => Some(
            in_index(
                m,
                table,
                path,
                |x: IndexView|
                    reply::document(
                        reply::rank_list(
                            rows_around_score(x, score, limit),
                            texts_of(m, table),
                        ),
                    ),
            ),
        ),
        CommandView::RankRangeScore { table, path, min, max, limit } => Some(
            in_index(
                m,
                table,
                path,
                |x: IndexView|
                    reply::document(
                        reply::rank_list(rows_between(x, min, max, limit), texts_of(m, table)),
                    ),
            ),
        ),
        CommandView::RankRange { table, path, start, end } => Some(
            in_index(
                m,
                table,
                path,
                |x: IndexView|
                    reply::document(
                        reply::rank_list(
                            secondary::rank_rows(
                                secondary::standings(x.scores),
                                start as int,
                                end as int,
                            ),
                            texts_of(m, table),
                        ),
                    ),
            ),
        ),
        _ => None,
    }
}

/// What a command does: the tables after it, and what it asks for next.
pub open spec fn runs(
    before: ManagerView,
    c: CommandView,
    now_ms: u64,
    w: World,
    after: ManagerView,
    step: StepView,
) -> bool {
    let now_secs = now_ms / 1000;
    if is_reading(c) {
        after == before && (step matches StepView::Reply(bytes) && reading_replies(
            before,
            c,
            now_secs,
            w,
            Some(bytes),
        ))
    } else {
        match c {
            CommandView::CreateTable { table } => after == before && step == StepView::Create(
                table,
            ),
            CommandView::Backup { target_dir } => after == before && step == StepView::Backup(
                target_dir,
            ),
            CommandView::Flush { table } => flush_runs(before, table, after, step),
            CommandView::Put { table, key, value } => put_runs(
                before,
                c,
                table,
                key,
                value,
                now_ms,
                after,
                step,
            ),
            CommandView::Mset { table, entries } => match manager::table_place(
                before.tables,
                table,
            ) {
                None => after == before && step == StepView::Reply(
                    reply::no_table_to_write(table),
                ),
                Some(i) => after == with_state(before, i, mset_started(before.tables[i], entries))
                    && step == mset_step(before.tables[i], entries, now_ms),
            },
            CommandView::Delete { table, key } => match manager::table_place(before.tables, table) {
                None => after == before && step == StepView::Reply(reply::no_table(table)),
                Some(i) => if before.tables[i].held.contains(key) {
                    after == before && step == StepView::Wait(c)
                } else {
                    after == with_state(before, i, delete_started(before.tables[i], key)) && step
                        == StepView::Log(
                        pending_of(
                            before.tables[i],
                            engine::delete_ops(key),
                            now_ms,
                            ThenView::Delete,
                        ),
                    )
                },
            },
            CommandView::JsonSet { table, key, path, value } => match access::table_of(
                before,
                table,
            ) {
                None => after == before && step == StepView::Reply(
                    reply::no_table_to_write(table),
                ),
                Some(t) => if t.held.contains(key) {
                    after == before && step == StepView::Wait(c)
                } else {
                    json_set_runs(before, c, t, table, key, path, value, now_ms, w, after, step)
                },
            },
            CommandView::Expire { table, key, seconds } => match manager::table_place(
                before.tables,
                table,
            ) {
                None => after == before && step == StepView::Reply(reply::no_table(table)),
                Some(i) => expire_runs(before, i, key, seconds, now_secs, w, after, step),
            },
            CommandView::IndexCreate { table, path } => match manager::table_place(
                before.tables,
                table,
            ) {
                None => after == before && step == StepView::Reply(reply::no_table(table)),
                Some(i) => index_runs(before, i, table, path, now_secs, w, after, step),
            },
            _ => false,
        }
    }
}

/// JSON.SET on a table: the document under the key is read, and the changed one is put.
pub open spec fn json_set_runs(
    before: ManagerView,
    c: CommandView,
    t: TableState,
    table: Seq<char>,
    key: u128,
    path: Seq<char>,
    value: Seq<char>,
    now_ms: u64,
    w: World,
    after: ManagerView,
    step: StepView,
) -> bool {
    exists|got: core::result::Result<Option<Seq<u8>>, ErrorView>| #[trigger]
        access::read_gives(t, w, key, now_ms / 1000, got) && match got {
            Err(e) => after == before && step == StepView::Reply(reply::failure(e)),
            Ok(v) => documents::parses_back(v, path, value) && put_runs(
                before,
                c,
                table,
                key,
                documents::updated_bytes(v, path, value),
                now_ms,
                after,
                step,
            ),
        }
}

/// EXPIRE on the `i`-th table.
pub open spec fn expire_runs(
    before: ManagerView,
    i: int,
    key: u128,
    seconds: u64,
    now_secs: u64,
    w: World,
    after: ManagerView,
    step: StepView,
) -> bool {
    exists|there: bool| #[trigger]
        access::there_gives(before.tables[i], w, key, now_secs, there) && (if there {
            after == with_state(
                before,
                i,
                access::expiring(before.tables[i], key, seconds, now_secs),
            ) && step == StepView::Reply(reply::number(1))
        } else {
            after == before && step == StepView::Reply(reply::number(0))
        })
}

/// INDEX CREATE on the `i`-th table.
pub open spec fn index_runs(
    before: ManagerView,
    i: int,
    table: Seq<char>,
    path: Seq<char>,
    now_secs: u64,
    w: World,
    after: ManagerView,
    step: StepView,
) -> bool {
    exists|made: core::result::Result<TableState, ErrorView>| #[trigger]
        access::index_gives(before.tables[i], w, path, now_secs, made) && match made {
            Err(e) => after == before && step == StepView::Reply(reply::failure(e)),
            Ok(t) => after == with_state(before, i, t) && step == StepView::Reply(
                reply::line("+INDEX CREATED "@ + table + ":"@ + path),
            ),
        }
}

/// A put: the indices follow, and its record is to be logged. Where another write of the key has not
/// ended, the command waits.
pub open spec fn put_runs(
    before: ManagerView,
    c: CommandView,
    table: Seq<char>,
    key: u128,
    value: Seq<u8>,
    now_ms: u64,
    after: ManagerView,
    step: StepView,
) -> bool {
    match manager::table_place(before.tables, table) {
        None => after == before && step == StepView::Reply(reply::no_table_to_write(table)),
        Some(i) => if before.tables[i].held.contains(key) {
            after == before && step == StepView::Wait(c)
        } else {
            after == with_state(before, i, put_started(before.tables[i], key, value)) && step
                == StepView::Log(
                pending_of(before.tables[i], engine::put_ops(key, value), now_ms, ThenView::Put),
            )
        },
    }
}

/// A flush: of one table, where there is one with the name, or of all.
pub open spec fn flush_runs(
    before: ManagerView,
    table: Option<Seq<char>>,
    after: ManagerView,
    step: StepView,
) -> bool {
    &&& step == StepView::Reply(reply::line("+OK"@))
    &&& match table {
        None => after == (ManagerView { tables: flushed_tables(before.tables), ..before }),
        Some(name) => match manager::table_place(before.tables, name) {
            None => after == before,
            Some(i) => after == with_state(before, i, flushed_table(before.tables[i])),
        },
    }
}

fn flush_all(m: &mut TableManager)
    requires
        old(m).wf(),
    ensures
        final(m).wf(),
        final(m)@ == (ManagerView { tables: flushed_tables(old(m)@.tables), ..old(m)@ }),
{
    let ghost before = m@;
    let count: usize = m.list_tables().len();
    let mut i: usize = 0;
    assert(count == before.tables.len()) by {
        assert(manager::names_of(before.tables).len() == before.tables.len());
    }
    while i < count
        invariant
            i <= count,
            count == before.tables.len(),
            m.wf(),
            m@.dir == before.dir,
            m@.config == before.config,
            m@.tables.len() == before.tables.len(),
            forall|j: int|
                0 <= j < m@.tables.len() ==> (#[trigger] m@.tables[j]) == (if j < i {
                    flushed_table(before.tables[j])
                } else {
                    before.tables[j]
                }),
        decreases count - i,
    {
        let ghost held = m@;
        let t = m.table_at_mut(i);
        t.engine.force_flush();
        i = i + 1;
    }
    assert(m@.tables =~= flushed_tables(before.tables));
}

fn find_index<'a>(m: &'a TableManager, table: &str, path: &str) -> (r: Option<
    (&'a FieldIndex, &'a KeyNames),
>)
    requires
        m.wf(),
    ensures
        match r {
            Some((x, texts)) => x.wf() && index_of(m@, table@, path@) == Some(x@) && texts@
                == texts_of(m@, table@),
            None => index_of(m@, table@, path@) is None,
        },
{
    match m.get_table(table) {
        Some(t) => match t.index_manager.get_index(path) {
            Some(x) => Some((x, &t.key_names)),
            None => None,
        },
        None => None,
    }
}

/// Answers a command on a ranking.
fn answer_ranking(m: &TableManager, cmd: &Command) -> (r: Option<Vec<u8>>)
    requires
        m.wf(),
    ensures
        match r {
            Some(b) => ranking_reply(m@, cmd@) == Some(b@),
            None => ranking_reply(m@, cmd@) is None,
        },
{
    match cmd {
        Command::Top { table, path, limit } => match find_index(m, table.as_str(), path.as_str()) {
            None => Some(reply::no_index_reply(table.as_str(), path.as_str())),
            Some((x, texts)) => Some(reply::document_of(&reply::rank_array(&x.get_top(*limit), texts))),
        },
        Command::Rank { table, path, key } => match find_index(m, table.as_str(), path.as_str()) {
            None => Some(reply::no_index_reply(table.as_str(), path.as_str())),
            Some((x, texts)) => Some(answer_rank(x, table.as_str(), key, texts)),
        },
        Command::RankKey { table, path, key, limit } => match find_index(
            m,
            table.as_str(),
            path.as_str(),
        ) {
            None => Some(reply::no_index_reply(table.as_str(), path.as_str())),
            Some((x, texts)) => match x.get_around_key(key, *limit) {
                None => Some(reply::nil_reply()),
                Some(rows) => Some(reply::document_of(&reply::rank_array(&rows, texts))),
            },
        },
        Command::RankScore { table, path, score, limit } => match find_index(
            m,
            table.as_str(),
            path.as_str(),
        ) {
            None => Some(reply::no_index_reply(table.as_str(), path.as_str())),
            Some((x, texts)) => Some(
                reply::document_of(&reply::rank_array(&x.get_around_score(*score, *limit), texts)),
            ),
        },
        Command::RankRangeScore { table, path, min, max, limit } => match find_index(
            m,
            table.as_str(),
            path.as_str(),
        ) {
            None => Some(reply::no_index_reply(table.as_str(), path.as_str())),
            Some((x, texts)) => Some(
                reply::document_of(&reply::rank_array(&x.get_score_range(*min, *max, *limit), texts)),
            ),
        },
        Command::RankRange { table, path, start, end } => match find_index(
            m,
            table.as_str(),
            path.as_str(),
        ) {
            None => Some(reply::no_index_reply(table.as_str(), path.as_str())),
            Some((x, texts)) => Some(
                reply::document_of(&reply::rank_array(&x.get_rank_range(*start, *end), texts)),
            ),
        },
        _ => None,
    }
}

/// Answers a command that changes nothing.
fn answer_reading<
    R: Fn(&str, u64, u64, u64) -> Result<Vec<u8>>,
    D: Fn(&str) -> u64,
    N: Fn(u64, u64) -> Option<bool>,
    H: Fn(u64) -> String,
>(m: &TableManager, cmd: &Command, now_secs: u64, out: &Outside<R, D, N, H>) -> (r: Option<Vec<u8>>)
    requires
        m.wf(),
        out.usable(),
    ensures
        r is Some <==> is_reading(cmd@),
        r matches Some(b) ==> reading_replies(m@, cmd@, now_secs, out.world(), Some(b@)),
{
    match cmd {
        Command::Ping => Some(reply::line_of("+PONG")),
        Command::Auth { password } => Some(reply::line_of("+OK")),
        Command::Quit => Some(reply::line_of("+OK")),
        Command::Tables => Some(reply::document_of(&reply::text_array(&m.list_tables()))),
        Command::Get { table, key } => match m.get_table(table.as_str()) {
            None => Some(reply::no_table_reply(table.as_str())),
            Some(t) => Some(answer_get(t, key, now_secs, out)),
        },
        Command::Mget { table, keys } => match m.get_table(table.as_str()) {
            None => Some(reply::no_table_reply(table.as_str())),
            Some(t) => Some(answer_mget(t, keys, now_secs, out)),
        },
        Command::Exists { table, keys } => match m.get_table(table.as_str()) {
            None => Some(reply::no_table_reply(table.as_str())),
            Some(t) => Some(answer_exists(t, keys, now_secs, out)),
        },
        Command::Ttl { table, key } => match m.get_table(table.as_str()) {
            None => Some(reply::no_table_reply(table.as_str())),
            Some(t) => {
                let left: i64 = out.ttl(t, key, now_secs);
                assert(access::ttl_gives(t@, out.world(), key.0, now_secs, left as int));
                Some(reply::signed_of(left))
            },
        },
        Command::Scan { table, start, end, limit } => match m.get_table(table.as_str()) {
            None => Some(reply::no_table_reply(table.as_str())),
            Some(t) => Some(answer_scan(t, *start, *end, *limit, now_secs, out)),
        },
        Command::Filter { table, query, limit } => match m.get_table(table.as_str()) {
            None => Some(reply::no_table_reply(table.as_str())),
            Some(t) => Some(answer_filter(t, query.as_str(), *limit, now_secs, out)),
        },
        Command::Count { table, query } => match m.get_table(table.as_str()) {
            None => Some(reply::no_table_reply(table.as_str())),
            Some(t) => Some(answer_count(t, query, now_secs, out)),
        },
        Command::IndexList { table } => Some(answer_index_list(m, table.as_str())),
        Command::Stats { table } => Some(answer_stats(m, table, out)),
        _ => answer_ranking(m, cmd),
    }
}

/// The table that a command writes values to.
pub open spec fn written_table(c: CommandView) -> Option<Seq<char>> {
    match c {
        CommandView::Put { table, key, value } => Some(table),
        CommandView::Mset { table, entries } => Some(table),
        CommandView::JsonSet { table, key, path, value } => Some(table),
        _ => None,
    }
}

/// A server that has taken note of the texts under which a command names the keys that it writes.
pub open spec fn remembered(m: ManagerView, c: CommandView, keys: Seq<(u128, Seq<char>)>) -> ManagerView {
    match written_table(c) {
        None => m,
        Some(table) => match manager::table_place(m.tables, table) {
            None => m,
            Some(i) => with_state(
                m,
                i,
                TableState { names: names::all_noted(m.tables[i].names, keys), ..m.tables[i] },
            ),
        },
    }
}

fn remember(m: &mut TableManager, cmd: &Command, keys: &Vec<(PlayerId, String)>)
    requires
        old(m).wf(),
    ensures
        final(m).wf(),
        final(m)@ == remembered(old(m)@, cmd@, names::named_view(keys@)),
{
    let table = match cmd {
        Command::Put { table, key, value } => table,
        Command::Mset { table, entries } => table,
        Command::JsonSet { table, key, path, value } => table,
        _ => {
            return ;
        },
    };
    if let Some(i) = m.find_table(table.as_str()) {
        let t = m.table_at_mut(i);
        t.key_names.note_all(keys);
    }
}

/// Runs a command. `keys` are the texts under which its line names the keys that it writes.
pub fn run<
    R: Fn(&str, u64, u64, u64) -> Result<Vec<u8>>,
    D: Fn(&str) -> u64,
    N: Fn(u64, u64) -> Option<bool>,
    H: Fn(u64) -> String,
>(
    m: &mut TableManager,
    cmd: Command,
    keys: &Vec<(PlayerId, String)>,
    now_ms: u64,
    out: &Outside<R, D, N, H>,
) -> (r: Step)
    requires
        old(m).wf(),
        out.usable(),
    ensures
        final(m).wf(),
        runs(
            remembered(old(m)@, cmd@, names::named_view(keys@)),
            cmd@,
            now_ms,
            out.world(),
            final(m)@,
            r@,
        ),
{
    let ghost w = out.world();
    let ghost given = cmd@;
    let now_secs: u64 = now_ms / 1000;
    remember(m, &cmd, keys);
    if let Some(b) = answer_reading(m, &cmd, now_secs, out) {
        return Step::Reply(b);
    }
    match cmd {
        Command::CreateTable { table } => Step::Create(table),
        Command::Backup { target_dir } => Step::Backup(target_dir),
        Command::Flush { table } => {
            match &table {
                None => {
                    flush_all(m);
                },
                Some(name) => {
                    if let Some(i) = m.find_table(name.as_str()) {
                        let t = m.table_at_mut(i);
                        t.engine.force_flush();
                    }
                },
            }
            Step::Reply(reply::line_of("+OK"))
        },
        Command::Put { table, key, value } => match m.find_table(table.as_str()) {
            None => Step::Reply(reply::no_table_to_write_reply(table.as_str())),
            Some(i) => {
                if m.table_at(i).held_keys.holds(&key) {
                    return Step::Wait(Command::Put { table, key, value });
                }
                let t = m.table_at_mut(i);
                Step::Log(start_put(t, key, value, now_ms, Then::Put))
            },
        },
        Command::Mset { table, entries } => match m.find_table(table.as_str()) {
            None => Step::Reply(reply::no_table_to_write_reply(table.as_str())),
            Some(i) => {
                let ghost before = m@;
                let t = m.table_at_mut(i);
                let step = start_mset(t, entries, now_ms);
                proof {
                    if step is Wait {
                        assert(m@.tables =~= before.tables);
                    }
                }
                step
            },
        },
        Command::Delete { table, key } => match m.find_table(table.as_str()) {
            None => Step::Reply(reply::no_table_reply(table.as_str())),
            Some(i) => {
                if m.table_at(i).held_keys.holds(&key) {
                    return Step::Wait(Command::Delete { table, key });
                }
                let t = m.table_at_mut(i);
                Step::Log(start_delete(t, key, now_ms))
            },
        },
        Command::JsonSet { table, key, path, value } => match m.find_table(table.as_str()) {
            None => Step::Reply(reply::no_table_to_write_reply(table.as_str())),
            Some(i) => {
                if m.table_at(i).held_keys.holds(&key) {
                    return Step::Wait(Command::JsonSet { table, key, path, value });
                }
                let updated = out.json_updated(
                    m.table_at(i),
                    &key,
                    path.as_str(),
                    value.as_str(),
                    now_secs,
                );
                let ghost t0 = m@.tables[i as int];
                let ghost got = choose|got: core::result::Result<Option<Seq<u8>>, ErrorView>|
                    #[trigger]
                    access::read_gives(t0, w, key.0, now_secs, got) && documents::updates(
                        got,
                        path@,
                        value@,
                        updated,
                    );
                assert(access::read_gives(t0, w, key.0, now_secs, got));
                let ghost before = m@;
                let r = match updated {
                    Err(e) => Step::Reply(reply::failure_of(&e)),
                    Ok(bytes) => {
                        let t = m.table_at_mut(i);
                        Step::Log(start_put(t, key, bytes, now_ms, Then::Put))
                    },
                };
                assert(json_set_runs(
                    before,
                    given,
                    t0,
                    table@,
                    key.0,
                    path@,
                    value@,
                    now_ms,
                    w,
                    m@,
                    r@,
                ));
                r
            },
        },
        Command::Expire { table, key, seconds } => match m.find_table(table.as_str()) {
            None => Step::Reply(reply::no_table_reply(table.as_str())),
            Some(i) => {
                let ghost before = m@;
                let t = m.table_at_mut(i);
                let done = out.expire(t, &key, seconds, now_secs);
                proof {
                    assert(access::there_gives(
                        before.tables[i as int],
                        w,
                        key.0,
                        now_secs,
                        done,
                    ));
                    if !done {
                        assert(m@.tables =~= before.tables);
                    }
                }
                let r = Step::Reply(
                    reply::number_of(
                        if done {
                            1
                        } else {
                            0
                        },
                    ),
                );
                assert(expire_runs(before, i as int, key.0, seconds, now_secs, w, m@, r@));
                r
            },
        },
        Command::IndexCreate { table, path } => match m.find_table(table.as_str()) {
            None => Step::Reply(reply::no_table_reply(table.as_str())),
            Some(i) => {
                let ghost before = m@;
                let t = m.table_at_mut(i);
                let made = out.create_index(t, path.as_str(), now_secs);
                let ghost after = m@.tables[i as int];
                let ghost told = choose|told: core::result::Result<TableState, ErrorView>|
                    #[trigger]
                    access::index_gives(before.tables[i as int], w, path@, now_secs, told)
                        && match told {
                        Ok(t) => made is Ok && after == t,
                        Err(e) => made matches Err(err) && err@ == e && after
                            == before.tables[i as int],
                    };
                assert(access::index_gives(before.tables[i as int], w, path@, now_secs, told));
                if let Err(e) = &made {
                    let r = Step::Reply(reply::failure_of(e));
                    proof {
                        assert(m@.tables =~= before.tables);
                        assert(index_runs(
                            before,
                            i as int,
                            table@,
                            path@,
                            now_secs,
                            w,
                            m@,
                            r@,
                        ));
                    }
                    return r;
                }
                let mut s = "+INDEX CREATED ".to_owned();
                text::push_text(&mut s, table.as_str());
                text::push_text(&mut s, ":");
                text::push_text(&mut s, path.as_str());
                let r = Step::Reply(reply::line_of(s.as_str()));
                proof {
                    assert(m@.tables =~= before.tables.update(i as int, after));
                    assert(index_runs(before, i as int, table@, path@, now_secs, w, m@, r@));
                }
                r
            },
        },
        _ => Step::Reply(reply::line_of("+OK")),
    }
}

/// The reply to CREATE TABLE, given how opening the table ended.
pub fn created_reply(table: &str, opened: &Result<()>) -> (r: Vec<u8>)
    ensures
        r@ == match *opened {
            Ok(_) => reply::line("+TABLE CREATED "@ + table@),
            Err(e) => reply::failure(e@),
        },
{
    match opened {
        Ok(_) => {
            let mut s = "+TABLE CREATED ".to_owned();
            text::push_text(&mut s, table);
            reply::line_of(s.as_str())
        },
        Err(e) => reply::failure_of(e),
    }
}

/// The reply to BACKUP, given how copying ended.
pub fn backup_reply(copied: &Result<String>) -> (r: Vec<u8>)
    ensures
        r@ == match *copied {
            Ok(path) => reply::line("+BACKUP COMPLETED "@ + path@),
            Err(e) => reply::line("-ERR Backup failed: "@ + types::error_text(e@)),
        },
{
    match copied {
        Ok(path) => {
            let mut s = "+BACKUP COMPLETED ".to_owned();
            text::push_text(&mut s, path.as_str());
            reply::line_of(s.as_str())
        },
        Err(e) => {
            let mut s = "-ERR Backup failed: ".to_owned();
            text::push_text(&mut s, e.to_text().as_str());
            reply::line_of(s.as_str())
        },
    }
}

// ---------------------------------------------------------------------------------------------
// A list of all tables
// ---------------------------------------------------------------------------------------------
/// The name of a way to compress.
pub open spec fn compression_name(c: sstable::CompressionType) -> Seq<char> {
    match c {
        sstable::CompressionType::Raw => "NONE"@,
        sstable::CompressionType::Lz4 => "LZ4"@,
        sstable::CompressionType::Zstd => "ZSTD"@,
    }
}

/// The details of a table, given the number of its records and the size of its files.
pub open spec fn table_info(t: TableState, records: Option<u64>, size: u64) -> JsonView {
    let v = t.engine;
    JsonView::Object(
        reply::no_fields().insert("name"@, JsonView::String(t.name)).insert(
            "total_records"@,
            access::records_json(records),
        ).insert("memtable_records"@, reply::count(v.memory.len())).insert(
            "imm_memtable_records"@,
            reply::count(engine::waiting_total(v.waiting, v.waiting.len() as int) as nat),
        ).insert("sstable_count"@, reply::count(v.tables.len())).insert(
            "disk_size_bytes"@,
            reply::count(size as nat),
        ).insert("compression"@, JsonView::String(compression_name(t.compression))).insert(
            "indexes"@,
            reply::text_items(secondary::index_paths(t.indices)),
        ),
    )
}

/// What the details of a table may be.
pub open spec fn info_gives(t: TableState, w: World, info: JsonView) -> bool {
    exists|records: Option<u64>, size: u64| #[trigger]
        access::total_gives(t, w, records) && #[trigger] w.tells_size(t.name, size) && info
            == table_info(t, records, size)
}

/// What the details of some tables may be, one table after the other.
pub open spec fn infos_give(s: Seq<TableState>, w: World, infos: Seq<JsonView>) -> bool {
    &&& infos.len() == s.len()
    &&& forall|i: int| 0 <= i < infos.len() ==> info_gives(s[i], w, #[trigger] infos[i])
}

fn info_of<
    R: Fn(&str, u64, u64, u64) -> Result<Vec<u8>>,
    D: Fn(&str) -> u64,
    N: Fn(u64, u64) -> Option<bool>,
    H: Fn(u64) -> String,
>(t: &Table, out: &Outside<R, D, N, H>) -> (r: JsonValue)
    requires
        t.wf(),
        out.usable(),
    ensures
        json::doc_ok(r),
        info_gives(t@, out.world(), r@),
{
    let (mem, imm, sst) = t.engine.stats();
    let records = out.total_entries(t);
    let total = access::records_value(records);
    let disk: u64 = out.size_of(t.name.as_str());
    assert(access::total_gives(t@, out.world(), records));
    assert(out.world().tells_size(t@.name, disk));
    let list = t.index_manager.list_indexes();
    proof {
        assert(engine::texts(list@) =~= secondary::texts_view(list@));
    }
    let v = query::with_field(
        reply::new_object(),
        "name",
        JsonValue::from_text(t.name.as_str()),
    );
    let v = query::with_field(v, "total_records", total);
    let v = query::with_field(v, "memtable_records", JsonValue::from_u64(mem as u64));
    let v = query::with_field(v, "imm_memtable_records", JsonValue::from_u64(imm as u64));
    let v = query::with_field(v, "sstable_count", JsonValue::from_u64(sst as u64));
    let v = query::with_field(v, "disk_size_bytes", JsonValue::from_u64(disk));
    let v = query::with_field(
        v,
        "compression",
        JsonValue::from_text(t.engine.compression_type().as_str()),
    );
    query::with_field(v, "indexes", reply::text_array(&list))
}

/// The details of all tables, in the order of their names.
pub fn table_info_list<
    R: Fn(&str, u64, u64, u64) -> Result<Vec<u8>>,
    D: Fn(&str) -> u64,
    N: Fn(u64, u64) -> Option<bool>,
    H: Fn(u64) -> String,
>(m: &TableManager, out: &Outside<R, D, N, H>) -> (r: JsonValue)
    requires
        m.wf(),
        out.usable(),
    ensures
        json::doc_ok(r),
        r@ matches JsonView::Array(infos) && infos_give(m@.tables, out.world(), infos),
{
    let ghost view = m@.tables;
    let count: usize = m.list_tables().len();
    assert(count == view.len()) by {
        assert(manager::names_of(view).len() == view.len());
    }
    let mut list: Vec<JsonValue> = Vec::new();
    let mut i: usize = 0;
    while i < count
        invariant
            i <= count,
            count == view.len(),
            view == m@.tables,
            m.wf(),
            out.usable(),
            list@.len() == i,
            forall|j: int| 0 <= j < i ==> json::doc_ok(#[trigger] list@[j]),
            forall|j: int| 0 <= j < i ==> info_gives(view[j], out.world(), (#[trigger] list@[j])@),
        decreases count - i,
    {
        let info = info_of(m.table_at(i), out);
        list.push(info);
        i = i + 1;
    }
    proof {
        reply::lemma_items(list@);
        let infos = json::items_view(list@);
        assert forall|j: int| 0 <= j < infos.len() implies info_gives(
            view[j],
            out.world(),
            #[trigger] infos[j],
        ) by {
            assert(infos[j] == list@[j]@);
        }
    }
    JsonValue::Array(list)
}

// ---------------------------------------------------------------------------------------------
// Laws
// ---------------------------------------------------------------------------------------------
/// What was set, once its record is in the log, is what GET answers, unless the key has expired.
pub proof fn law_set_value_is_answered(
    t: TableState,
    key: u128,
    value: Seq<u8>,
    now_ms: u64,
    w: World,
    now_secs: u64,
    r: Seq<u8>,
)
    requires
        t.engine.memory.dom().finite(),
        !engine::expired(t.engine.ttls, key, now_secs),
        get_replies(
            batch_applied(
                put_started(t, key, value),
                pending_of(t, engine::put_ops(key, value), now_ms, ThenView::Put),
            ),
            w,
            key,
            now_secs,
            r,
        ),
    ensures
        r == reply::bulk(value),
{
    let ops = engine::put_ops(key, value);
    let started = put_started(t, key, value).engine;
    let after = batch_applied(
        put_started(t, key, value),
        pending_of(t, ops, now_ms, ThenView::Put),
    );
    let got = choose|got: core::result::Result<Option<Seq<u8>>, ErrorView>| #[trigger]
        access::read_gives(after, w, key, now_secs, got) && r == access::get_reply(got);
    assert(laws::last_op(ops, key) == Some(ops.last()));
    laws::law_batch_is_read_from_memory(
        started,
        ops,
        t.engine.next_seq,
        now_ms,
        w.reads_of(t.name),
        key,
        now_secs,
        got,
    );
}

/// What was deleted, once its record is in the log, is answered by nothing.
pub proof fn law_deleted_key_is_answered_by_nothing(
    t: TableState,
    key: u128,
    now_ms: u64,
    w: World,
    now_secs: u64,
    r: Seq<u8>,
)
    requires
        t.engine.memory.dom().finite(),
        get_replies(
            batch_applied(
                delete_started(t, key),
                pending_of(t, engine::delete_ops(key), now_ms, ThenView::Delete),
            ),
            w,
            key,
            now_secs,
            r,
        ),
    ensures
        r == reply::nil(),
{
    let ops = engine::delete_ops(key);
    let started = delete_started(t, key).engine;
    let after = batch_applied(
        delete_started(t, key),
        pending_of(t, ops, now_ms, ThenView::Delete),
    );
    let got = choose|got: core::result::Result<Option<Seq<u8>>, ErrorView>| #[trigger]
        access::read_gives(after, w, key, now_secs, got) && r == access::get_reply(got);
    assert(laws::last_op(ops, key) == Some(ops.last()));
    laws::law_batch_is_read_from_memory(
        started,
        ops,
        t.engine.next_seq,
        now_ms,
        w.reads_of(t.name),
        key,
        now_secs,
        got,
    );
}

/// A document that is set is ranked at once by every index on a number in it.
pub proof fn law_set_value_is_ranked(t: TableState, key: u128, value: Seq<u8>, i: int)
    requires
        0 <= i < t.indices.len(),
        secondary::extracted(t.indices[i].path, value) is Some,
        !json::is_nan(secondary::extracted(t.indices[i].path, value).unwrap()),
    ensures
        put_started(t, key, value).indices[i].scores == t.indices[i].scores.insert(
            key,
            secondary::extracted(t.indices[i].path, value).unwrap(),
        ),
{
}

/// A key that is deleted is ranked by no index.
pub proof fn law_deleted_key_is_not_ranked(t: TableState, key: u128, i: int)
    requires
        0 <= i < t.indices.len(),
    ensures
        delete_started(t, key).indices.len() == t.indices.len(),
        delete_started(t, key).indices[i].scores == t.indices[i].scores.remove(key),
{
}

/// Of the same records, COUNT counts what FILTER lists.
pub proof fn law_count_counts_what_filter_lists(
    records: Seq<(u128, Seq<u8>)>,
    filter: query::ExpressionView,
    near: spec_fn(u64, u64) -> Option<bool>,
    limit: usize,
    texts: Map<u128, Seq<char>>,
)
    requires
        documents::matching(records, Some(filter), near).len() <= limit,
    ensures
        ({
            let listed = documents::matching(records, Some(filter), near);
            &&& filter_reply(Ok(records), filter, near, limit, texts) == reply::document(
                access::record_list(listed, texts),
            )
            &&& count_reply(Ok(records), Some(filter), near) == reply::number(listed.len() as int)
        }),
{
}

/// A key that a command writes is shown in listings by the text under which the command names it.
pub proof fn law_written_key_is_shown(
    m: ManagerView,
    c: CommandView,
    keys: Seq<(u128, Seq<char>)>,
    table: Seq<char>,
    i: int,
    key: u128,
    name: Seq<char>,
)
    requires
        written_table(c) == Some(table),
        manager::table_place(m.tables, table) == Some(i),
        0 <= i < m.tables.len(),
        names::last_name(keys, key) == Some(name),
    ensures
        names::shown(remembered(m, c, keys).tables[i].names, key) == name,
{
    names::law_last_text_is_shown(m.tables[i].names, keys, key);
}

/// The key that a command writes first.
pub open spec fn first_written(c: CommandView) -> Option<(Seq<char>, u128)> {
    match c {
        CommandView::Put { table, key, value } => Some((table, key)),
        CommandView::Delete { table, key } => Some((table, key)),
        CommandView::JsonSet { table, key, path, value } => Some((table, key)),
        CommandView::Mset { table, entries } => if entries.len() > 0 {
            Some((table, entries[0].0))
        } else {
            None
        },
        _ => None,
    }
}

/// From the time a write of a key begins until it ends, a command that writes the key changes
/// nothing and waits, to be run again: no write comes between what JSON.SET reads and what it
/// writes.
pub proof fn law_writes_of_a_key_take_turns(
    before: ManagerView,
    c: CommandView,
    i: int,
    now_ms: u64,
    w: World,
    after: ManagerView,
    step: StepView,
)
    requires
        runs(before, c, now_ms, w, after, step),
        first_written(c) matches Some(key) && manager::table_place(before.tables, key.0) == Some(i)
            && 0 <= i < before.tables.len() && before.tables[i].name == key.0
            && before.tables[i].held.contains(key.1),
    ensures
        after == before,
        step == StepView::Wait(c),
{
    if c is Mset {
        assert(with_state(before, i, before.tables[i]).tables =~= before.tables);
    }
}

/// A key is held from the time a write of it begins until the write ends, and no longer.
pub proof fn law_key_is_held_while_it_is_written(
    t: TableState,
    key: u128,
    value: Seq<u8>,
    now_ms: u64,
)
    requires
        !t.held.contains(key),
    ensures
        put_started(t, key, value).held.contains(key),
        delete_started(t, key).held.contains(key),
        batch_applied(
            put_started(t, key, value),
            pending_of(t, engine::put_ops(key, value), now_ms, ThenView::Put),
        ).held == t.held,
        write_ended(
            put_started(t, key, value),
            pending_of(t, engine::put_ops(key, value), now_ms, ThenView::Put),
        ).held == t.held,
        batch_applied(
            delete_started(t, key),
            pending_of(t, engine::delete_ops(key), now_ms, ThenView::Delete),
        ).held == t.held,
{
    reveal_with_fuel(freed, 2);
    let put = engine::put_ops(key, value);
    let del = engine::delete_ops(key);
    assert(put.drop_last() =~= Seq::empty());
    assert(del.drop_last() =~= Seq::empty());
    assert(t.held.insert(key).remove(key) =~= t.held);
}

/// A table after JSON.SET was run on it, which read `was`, and its record was logged.
pub open spec fn json_set_done(
    t: TableState,
    was: Option<Seq<u8>>,
    key: u128,
    path: Seq<char>,
    raw: Seq<char>,
    now_ms: u64,
) -> TableState {
    let bytes = documents::updated_bytes(was, path, raw);
    batch_applied(
        put_started(t, key, bytes),
        pending_of(t, engine::put_ops(key, bytes), now_ms, ThenView::Put),
    )
}

proof fn lemma_json_set_is_read(
    t: TableState,
    w: World,
    was: Option<Seq<u8>>,
    key: u128,
    path: Seq<char>,
    raw: Seq<char>,
    now_ms: u64,
    now_secs: u64,
    got: core::result::Result<Option<Seq<u8>>, ErrorView>,
)
    requires
        t.engine.memory.dom().finite(),
        !engine::expired(t.engine.ttls, key, now_secs),
        access::read_gives(json_set_done(t, was, key, path, raw, now_ms), w, key, now_secs, got),
    ensures
        got == Ok::<Option<Seq<u8>>, ErrorView>(Some(documents::updated_bytes(was, path, raw))),
        json_set_done(t, was, key, path, raw, now_ms).engine.memory.dom().finite(),
        json_set_done(t, was, key, path, raw, now_ms).engine.ttls == t.engine.ttls,
        json_set_done(t, was, key, path, raw, now_ms).name == t.name,
{
    let bytes = documents::updated_bytes(was, path, raw);
    let started = put_started(t, key, bytes);
    let ops = engine::put_ops(key, bytes);
    assert(laws::last_op(ops, key) == Some(ops.last()));
    laws::law_batch_is_read_from_memory(
        started.engine,
        ops,
        t.engine.next_seq,
        now_ms,
        w.reads_of(t.name),
        key,
        now_secs,
        got,
    );
    laws::lemma_applied(t.engine.memory, ops, t.engine.next_seq, now_ms, key);
}

/// Two JSON.SETs on paths that part leave both values in the document, as long as its numbers are whole,
/// it is not nested too deep to be parsed, and the key has not expired when it is read again. That the
/// bytes of a document spell it is what running the commands tells.
pub proof fn law_json_updates_both_stand(
    t: TableState,
    w: World,
    was: Option<Seq<u8>>,
    key: u128,
    path: Seq<char>,
    raw: Seq<char>,
    other_path: Seq<char>,
    other_raw: Seq<char>,
    fork: int,
    first_ms: u64,
    second_ms: u64,
    between: Option<Seq<u8>>,
    now_secs: u64,
    got: core::result::Result<Option<Seq<u8>>, ErrorView>,
)
    requires
        t.engine.memory.dom().finite(),
        !engine::expired(t.engine.ttls, key, second_ms / 1000),
        !engine::expired(t.engine.ttls, key, now_secs),
        0 <= fork < query::path_parts(path).len(),
        fork < query::path_parts(other_path).len(),
        forall|i: int|
            0 <= i < fork ==> query::path_parts(path)[i] == #[trigger] query::path_parts(
                other_path,
            )[i],
        query::path_parts(path)[fork] != query::path_parts(other_path)[fork],
        access::read_gives(t, w, key, first_ms / 1000, Ok(was)),
        documents::parses_back(was, path, raw),
        documents::parses_back(between, other_path, other_raw),
        json::whole(documents::updated_document(was, path, raw), json::MAX_DEPTH as nat),
        json::whole(
            documents::updated_document(between, other_path, other_raw),
            json::MAX_DEPTH as nat,
        ),
        access::read_gives(
            json_set_done(t, was, key, path, raw, first_ms),
            w,
            key,
            second_ms / 1000,
            Ok(between),
        ),
        access::read_gives(
            json_set_done(
                json_set_done(t, was, key, path, raw, first_ms),
                between,
                key,
                other_path,
                other_raw,
                second_ms,
            ),
            w,
            key,
            now_secs,
            got,
        ),
    ensures
        got matches Ok(Some(bytes)) && {
            let document = documents::document_of(Some(bytes));
            &&& query::value_at(document, query::path_parts(path)) == Some(query::raw_value(raw))
            &&& query::value_at(document, query::path_parts(other_path)) == Some(
                query::raw_value(other_raw),
            )
        },
{
    let parts = query::path_parts(path);
    let other = query::path_parts(other_path);
    let d1 = query::with_value(documents::document_of(was), parts, query::raw_value(raw));
    let one = json_set_done(t, was, key, path, raw, first_ms);
    lemma_json_set_is_read(t, w, was, key, path, raw, first_ms, second_ms / 1000, Ok(between));
    lemma_json_set_is_read(
        one,
        w,
        between,
        key,
        other_path,
        other_raw,
        second_ms,
        now_secs,
        got,
    );
    assert(documents::document_of(Some(documents::updated_bytes(was, path, raw))) == d1);
    query::law_set_value_is_found(documents::document_of(was), parts, query::raw_value(raw));
    query::law_set_value_is_found(d1, other, query::raw_value(other_raw));
    assert forall|i: int| 0 <= i < fork implies other[i] == #[trigger] parts[i] by {
        assert(parts[i] == other[i]);
    }
    query::law_set_value_keeps_the_rest(d1, other, query::raw_value(other_raw), parts, fork);
}

} // verus!
