//! Reading commands.
use bytes::Bytes;
use vstd::prelude::*;
use vstd::utf8::encode_utf8;

use crate::index::json;
use crate::proto::command::{Command, CommandView};
use crate::proto::command;
use crate::storage::iterator;
use crate::table::names;
use crate::text;
use crate::types::{DbError, ErrorView, PlayerId, Result};
use crate::types;
use crate::wire;

verus! {

/// The number of rows that a listing has unless the command says otherwise.
pub const DEFAULT_LIMIT: usize = 10;

/// The largest number of rows that the top of a ranking has.
pub const MAX_LIMIT: usize = 1000;

// ---------------------------------------------------------------------------------------------
// What a line says
// ---------------------------------------------------------------------------------------------
/// What a line stands for: a command, or the error that it is answered with.
pub open spec fn command_of(input: Seq<char>) -> core::result::Result<CommandView, ErrorView> {
    let t = text::trimmed(input);
    let parts = text::pieces_up_to(t, " "@, 2);
    if t.len() == 0 {
        invalid("Empty command"@)
    } else {
        verb_command(
            text::upper_text(parts[0]),
            if parts.len() > 1 {
                text::trimmed(parts[1])
            } else {
                Seq::empty()
            },
        )
    }
}

pub open spec fn invalid(msg: Seq<char>) -> core::result::Result<CommandView, ErrorView> {
    Err(ErrorView::InvalidCommand(msg))
}

/// What a verb in upper case and the rest of the line stand for.
pub open spec fn verb_command(verb: Seq<char>, rest: Seq<char>) -> core::result::Result<
    CommandView,
    ErrorView,
> {
    if verb == "PING"@ {
        Ok(CommandView::Ping)
    } else if verb == "TABLES"@ {
        Ok(CommandView::Tables)
    } else if verb == "QUIT"@ || verb == "EXIT"@ {
        Ok(CommandView::Quit)
    } else if verb == "AUTH"@ {
        auth_command(rest)
    } else if verb == "SHOW"@ {
        show_command(rest)
    } else if verb == "CREATE"@ {
        create_command(text::words(rest))
    } else if verb == "GET"@ {
        get_command(text::words(rest))
    } else if verb == "MGET"@ {
        mget_command(text::words(rest))
    } else if verb == "SET"@ {
        set_command(text::pieces_up_to(rest, " "@, 3))
    } else if verb == "MSET"@ {
        mset_command(text::pieces_up_to(rest, " "@, 2))
    } else if verb == "DEL"@ || verb == "DELETE"@ {
        delete_command(text::words(rest))
    } else if verb == "EXISTS"@ {
        exists_command(text::words(rest))
    } else if verb == "EXPIRE"@ {
        expire_command(text::words(rest))
    } else if verb == "TTL"@ {
        ttl_command(text::words(rest))
    } else if verb == "INDEX"@ {
        index_command(text::words(rest))
    } else if verb == "TOP"@ {
        top_command(text::words(rest))
    } else if verb == "RANK"@ {
        rank_command(text::words(rest))
    } else if verb == "BACKUP"@ {
        Ok(CommandView::Backup { target_dir: optional(rest) })
    } else if verb == "STATS"@ {
        Ok(CommandView::Stats { table: optional_lower(rest) })
    } else if verb == "FLUSH"@ {
        Ok(CommandView::Flush { table: optional_lower(rest) })
    } else {
        dotted_command(verb, rest)
    }
}

/// What the verbs for documents and for cuts of a ranking stand for.
pub open spec fn dotted_command(verb: Seq<char>, rest: Seq<char>) -> core::result::Result<
    CommandView,
    ErrorView,
> {
    if verb == "JSON.SET"@ {
        json_set_command(text::pieces_up_to(rest, " "@, 4))
    } else if verb == "RANK.KEY"@ {
        rank_key_command(text::words(rest))
    } else if verb == "RANK.SCORE"@ {
        rank_score_command(text::words(rest))
    } else if verb == "RANK.RANGE_SCORE"@ {
        rank_range_score_command(text::words(rest))
    } else if verb == "RANK.RANGE"@ {
        rank_range_command(text::words(rest))
    } else if verb == "SCAN"@ {
        scan_command(text::words(rest))
    } else if verb == "FILTER"@ {
        filter_command(text::pieces_up_to(rest, " "@, 2))
    } else if verb == "COUNT"@ {
        count_command(text::pieces_up_to(rest, " "@, 2))
    } else {
        invalid("Unknown command: '"@ + verb + "'"@)
    }
}

pub open spec fn optional(s: Seq<char>) -> Option<Seq<char>> {
    if s.len() == 0 {
        None
    } else {
        Some(s)
    }
}

pub open spec fn optional_lower(s: Seq<char>) -> Option<Seq<char>> {
    if s.len() == 0 {
        None
    } else {
        Some(text::lower_text(s))
    }
}

pub open spec fn auth_command(rest: Seq<char>) -> core::result::Result<CommandView, ErrorView> {
    if rest.len() == 0 {
        invalid("Usage: AUTH <password>"@)
    } else {
        Ok(CommandView::Auth { password: rest })
    }
}

pub open spec fn show_command(rest: Seq<char>) -> core::result::Result<CommandView, ErrorView> {
    if text::same_ignoring_case(rest, "TABLES"@) {
        Ok(CommandView::Tables)
    } else {
        invalid("Usage: SHOW TABLES"@)
    }
}

pub open spec fn create_command(w: Seq<Seq<char>>) -> core::result::Result<CommandView, ErrorView> {
    if w.len() == 0 || text::upper_text(w[0]) != "TABLE"@ {
        invalid("Usage: CREATE TABLE <name>"@)
    } else if w.len() < 2 {
        invalid("Usage: CREATE TABLE <table_name>"@)
    } else {
        Ok(CommandView::CreateTable { table: text::lower_text(w[1]) })
    }
}

/// A command made of a key, unless the text is no key.
pub open spec fn with_key(
    key: core::result::Result<u128, ErrorView>,
    make: spec_fn(u128) -> CommandView,
) -> core::result::Result<CommandView, ErrorView> {
    match key {
        Ok(k) => Ok(make(k)),
        Err(e) => Err(e),
    }
}

pub open spec fn get_command(w: Seq<Seq<char>>) -> core::result::Result<CommandView, ErrorView> {
    if w.len() < 2 {
        invalid("Usage: GET <table> <UUID>"@)
    } else {
        with_key(
            types::key_of_text(w[1]),
            |key: u128| CommandView::Get { table: text::lower_text(w[0]), key },
        )
    }
}

/// The keys that some texts stand for; the first text that is none decides the error.
pub open spec fn keys_of(w: Seq<Seq<char>>) -> core::result::Result<Seq<u128>, ErrorView>
    decreases w.len(),
{
    if w.len() == 0 {
        Ok(Seq::empty())
    } else {
        match keys_of(w.drop_last()) {
            Err(e) => Err(e),
            Ok(s) => match types::key_of_text(w.last()) {
                Err(e) => Err(e),
                Ok(k) => Ok(s.push(k)),
            },
        }
    }
}

pub open spec fn mget_command(w: Seq<Seq<char>>) -> core::result::Result<CommandView, ErrorView> {
    if w.len() < 2 {
        invalid("Usage: MGET <table> <UUID1> <UUID2> ..."@)
    } else {
        match keys_of(w.skip(1)) {
            Err(e) => Err(e),
            Ok(keys) => Ok(CommandView::Mget { table: text::lower_text(w[0]), keys }),
        }
    }
}

pub open spec fn set_command(p: Seq<Seq<char>>) -> core::result::Result<CommandView, ErrorView> {
    if p.len() < 3 {
        invalid("Usage: SET <table> <UUID> <JSON>"@)
    } else {
        with_key(
            types::key_of_text(p[1]),
            |key: u128|
                CommandView::Put { table: text::lower_text(p[0]), key, value: encode_utf8(p[2]) },
        )
    }
}

/// Where a reader of a JSON text stands: outside strings, in a string, or in a string behind a
/// backslash.
pub enum Place {
    Outside,
    Quoted,
    Escaped,
}

/// Where a reader stands after one more character.
pub open spec fn place_after(at: Place, c: char) -> Place {
    match at {
        Place::Outside => if c == '"' {
            Place::Quoted
        } else {
            Place::Outside
        },
        Place::Quoted => if c == '"' {
            Place::Outside
        } else if c == '\\' {
            Place::Escaped
        } else {
            Place::Quoted
        },
        Place::Escaped => Place::Quoted,
    }
}

/// The length of the text in braces that `s` goes on with, `depth` of them open: up to the brace
/// that closes the first, or to the end. Braces in strings do not count.
pub open spec fn braced_len(s: Seq<char>, depth: int, at: Place) -> nat
    decreases s.len(),
{
    if s.len() == 0 {
        0
    } else if at is Outside && s[0] == '}' && depth == 1 {
        1
    } else if at is Outside && s[0] == '}' {
        1 + braced_len(s.skip(1), depth - 1, at)
    } else if at is Outside && s[0] == '{' {
        1 + braced_len(s.skip(1), depth + 1, at)
    } else {
        1 + braced_len(s.skip(1), depth, place_after(at, s[0]))
    }
}

/// The length of the value that `s` starts with: an object in braces, or a word.
pub open spec fn value_len(s: Seq<char>) -> nat {
    if s.len() > 0 && s[0] == '{' {
        braced_len(s, 0, Place::Outside)
    } else {
        text::word_len(s)
    }
}

pub proof fn lemma_braced_len(s: Seq<char>, depth: int, at: Place)
    ensures
        braced_len(s, depth, at) <= s.len(),
        s.len() > 0 ==> braced_len(s, depth, at) > 0,
    decreases s.len(),
{
    if s.len() > 0 {
        lemma_braced_len(s.skip(1), depth, place_after(at, s[0]));
        lemma_braced_len(s.skip(1), depth - 1, at);
        lemma_braced_len(s.skip(1), depth + 1, at);
    }
}

pub proof fn lemma_trim_start_len(s: Seq<char>)
    ensures
        text::trim_start(s).len() <= s.len(),
    decreases s.len(),
{
    if s.len() > 0 && text::is_space(s[0]) {
        lemma_trim_start_len(s.skip(1));
    }
}

/// The keys and values of an MSET, in turn.
pub open spec fn mset_entries(s: Seq<char>) -> core::result::Result<
    Seq<(u128, Seq<u8>)>,
    ErrorView,
>
    decreases s.len(),
{
    let b = text::trim_start(s);
    let name = b.take(text::word_len(b) as int);
    let c = text::trim_start(b.skip(text::word_len(b) as int));
    let value = c.take(value_len(c) as int);
    proof {
        lemma_trim_start_len(s);
        text::lemma_word_len(b);
        lemma_trim_start_len(b.skip(text::word_len(b) as int));
        text::lemma_word_len(c);
        lemma_braced_len(c, 0, Place::Outside);
    }
    if b.len() == 0 {
        Ok(Seq::empty())
    } else {
        match types::key_of_text(name) {
            Err(e) => Err(e),
            Ok(key) => if value_len(c) == 0 {
                Err(ErrorView::InvalidCommand("Malformed MSET key-value pairs"@))
            } else {
                match mset_entries(c.skip(value_len(c) as int)) {
                    Err(e) => Err(e),
                    Ok(rest) => Ok(seq![(key, encode_utf8(value))] + rest),
                }
            },
        }
    }
}

pub open spec fn mset_command(p: Seq<Seq<char>>) -> core::result::Result<CommandView, ErrorView> {
    let body = if p.len() > 1 {
        text::trimmed(p[1])
    } else {
        Seq::empty()
    };
    match mset_entries(body) {
        Err(e) => Err(e),
        Ok(entries) => if entries.len() == 0 {
            invalid("Usage: MSET <table> <UUID1> <JSON1> ..."@)
        } else {
            Ok(CommandView::Mset { table: text::lower_text(p[0]), entries })
        },
    }
}

/// The key that the second of some pieces stands for, with its text.
pub open spec fn written_key(p: Seq<Seq<char>>) -> Seq<(u128, Seq<char>)> {
    if p.len() < 2 {
        Seq::empty()
    } else {
        match types::key_of_text(p[1]) {
            Ok(key) => seq![(key, text::trimmed(p[1]))],
            Err(_) => Seq::empty(),
        }
    }
}

/// The keys of an MSET with their texts, in turn.
pub open spec fn mset_keys(s: Seq<char>) -> Seq<(u128, Seq<char>)>
    decreases s.len(),
{
    let b = text::trim_start(s);
    let name = b.take(text::word_len(b) as int);
    let c = text::trim_start(b.skip(text::word_len(b) as int));
    proof {
        lemma_trim_start_len(s);
        text::lemma_word_len(b);
        lemma_trim_start_len(b.skip(text::word_len(b) as int));
        text::lemma_word_len(c);
        lemma_braced_len(c, 0, Place::Outside);
    }
    if b.len() == 0 {
        Seq::empty()
    } else {
        match types::key_of_text(name) {
            Err(_) => Seq::empty(),
            Ok(key) => if value_len(c) == 0 {
                Seq::empty()
            } else {
                seq![(key, text::trimmed(name))] + mset_keys(c.skip(value_len(c) as int))
            },
        }
    }
}

/// The keys that a line writes, with the texts under which it names them.
pub open spec fn written_keys(input: Seq<char>) -> Seq<(u128, Seq<char>)> {
    let t = text::trimmed(input);
    let parts = text::pieces_up_to(t, " "@, 2);
    if t.len() == 0 || parts.len() < 2 {
        Seq::empty()
    } else {
        let verb = text::upper_text(parts[0]);
        let rest = text::trimmed(parts[1]);
        if verb == "SET"@ {
            written_key(text::pieces_up_to(rest, " "@, 3))
        } else if verb == "JSON.SET"@ {
            written_key(text::pieces_up_to(rest, " "@, 4))
        } else if verb == "MSET"@ {
            let p = text::pieces_up_to(rest, " "@, 2);
            if p.len() > 1 {
                mset_keys(text::trimmed(p[1]))
            } else {
                Seq::empty()
            }
        } else {
            Seq::empty()
        }
    }
}

pub open spec fn delete_command(w: Seq<Seq<char>>) -> core::result::Result<CommandView, ErrorView> {
    if w.len() < 2 {
        invalid("Usage: DEL <table> <UUID>"@)
    } else {
        with_key(
            types::key_of_text(w[1]),
            |key: u128| CommandView::Delete { table: text::lower_text(w[0]), key },
        )
    }
}

pub open spec fn exists_command(w: Seq<Seq<char>>) -> core::result::Result<CommandView, ErrorView> {
    if w.len() < 2 {
        invalid("Usage: EXISTS <table> <UUID1> [UUID2 ...]"@)
    } else {
        match keys_of(w.skip(1)) {
            Err(e) => Err(e),
            Ok(keys) => Ok(CommandView::Exists { table: text::lower_text(w[0]), keys }),
        }
    }
}

pub open spec fn expire_command(w: Seq<Seq<char>>) -> core::result::Result<CommandView, ErrorView> {
    if w.len() < 3 {
        invalid("Usage: EXPIRE <table> <UUID> <seconds>"@)
    } else {
        match types::key_of_text(w[1]) {
            Err(e) => Err(e),
            Ok(key) => match text::parsed_number(w[2], u64::MAX as nat) {
                None => invalid("Invalid expire seconds"@),
                Some(n) => Ok(
                    CommandView::Expire { table: text::lower_text(w[0]), key, seconds: n as u64 },
                ),
            },
        }
    }
}

pub open spec fn ttl_command(w: Seq<Seq<char>>) -> core::result::Result<CommandView, ErrorView> {
    if w.len() < 2 {
        invalid("Usage: TTL <table> <UUID>"@)
    } else {
        with_key(
            types::key_of_text(w[1]),
            |key: u128| CommandView::Ttl { table: text::lower_text(w[0]), key },
        )
    }
}

pub open spec fn index_command(w: Seq<Seq<char>>) -> core::result::Result<CommandView, ErrorView> {
    let sub = if w.len() == 0 {
        text::upper_text(Seq::empty())
    } else {
        text::upper_text(w[0])
    };
    if sub == "CREATE"@ || sub == "ADD"@ {
        if w.len() < 3 {
            invalid("Usage: INDEX CREATE <table> <json.path>"@)
        } else {
            Ok(CommandView::IndexCreate { table: text::lower_text(w[1]), path: w[2] })
        }
    } else if sub == "LIST"@ {
        if w.len() < 2 {
            invalid("Usage: INDEX LIST <table>"@)
        } else {
            Ok(CommandView::IndexList { table: text::lower_text(w[1]) })
        }
    } else {
        invalid("Usage: INDEX <CREATE|LIST> <table> [path]"@)
    }
}

/// The number of rows that the `i`-th word asks for.
pub open spec fn limit_of(w: Seq<Seq<char>>, i: int) -> usize {
    if i < w.len() {
        match text::parsed_number(w[i], usize::MAX as nat) {
            Some(n) => n as usize,
            None => DEFAULT_LIMIT,
        }
    } else {
        DEFAULT_LIMIT
    }
}

/// A number of rows, at most the largest that a ranking's top has.
pub open spec fn at_most_max(n: usize) -> usize {
    if n > MAX_LIMIT {
        MAX_LIMIT
    } else {
        n
    }
}

pub open spec fn top_command(w: Seq<Seq<char>>) -> core::result::Result<CommandView, ErrorView> {
    if w.len() < 2 {
        invalid("Usage: TOP <table> <json.path> [limit]"@)
    } else {
        Ok(
            CommandView::Top {
                table: text::lower_text(w[0]),
                path: w[1],
                limit: at_most_max(limit_of(w, 2)),
            },
        )
    }
}

pub open spec fn rank_command(w: Seq<Seq<char>>) -> core::result::Result<CommandView, ErrorView> {
    if w.len() < 3 {
        invalid("Usage: RANK <table> <json.path> <UUID>"@)
    } else {
        with_key(
            types::key_of_text(w[2]),
            |key: u128| CommandView::Rank { table: text::lower_text(w[0]), path: w[1], key },
        )
    }
}

pub open spec fn json_set_command(p: Seq<Seq<char>>) -> core::result::Result<
    CommandView,
    ErrorView,
> {
    if p.len() < 4 {
        invalid("Usage: JSON.SET <table> <UUID> <json.path> <value>"@)
    } else {
        with_key(
            types::key_of_text(p[1]),
            |key: u128|
                CommandView::JsonSet {
                    table: text::lower_text(p[0]),
                    key,
                    path: p[2],
                    value: p[3],
                },
        )
    }
}

pub open spec fn rank_key_command(w: Seq<Seq<char>>) -> core::result::Result<
    CommandView,
    ErrorView,
> {
    if w.len() < 3 {
        invalid("Usage: RANK.KEY <table> <json.path> <UUID> [limit]"@)
    } else {
        with_key(
            types::key_of_text(w[2]),
            |key: u128|
                CommandView::RankKey {
                    table: text::lower_text(w[0]),
                    path: w[1],
                    key,
                    limit: limit_of(w, 3),
                },
        )
    }
}

/// A score: a double that is a number.
pub open spec fn score_of(s: Seq<char>) -> Option<u64> {
    match json::float_of_text(s) {
        Some(bits) => if json::is_nan(bits) {
            None
        } else {
            Some(bits)
        },
        None => None,
    }
}

pub open spec fn rank_score_command(w: Seq<Seq<char>>) -> core::result::Result<
    CommandView,
    ErrorView,
> {
    if w.len() < 3 {
        invalid("Usage: RANK.SCORE <table> <json.path> <score> [limit]"@)
    } else {
        match score_of(w[2]) {
            None => invalid("Invalid score"@),
            Some(score) => Ok(
                CommandView::RankScore {
                    table: text::lower_text(w[0]),
                    path: w[1],
                    score,
                    limit: limit_of(w, 3),
                },
            ),
        }
    }
}

pub open spec fn rank_range_score_command(w: Seq<Seq<char>>) -> core::result::Result<
    CommandView,
    ErrorView,
> {
    if w.len() < 4 {
        invalid("Usage: RANK.RANGE_SCORE <table> <json.path> <min> <max> [limit]"@)
    } else {
        match (score_of(w[2]), score_of(w[3])) {
            (Some(min), Some(max)) => Ok(
                CommandView::RankRangeScore {
                    table: text::lower_text(w[0]),
                    path: w[1],
                    min,
                    max,
                    limit: limit_of(w, 4),
                },
            ),
            _ => invalid("Invalid score"@),
        }
    }
}

pub open spec fn rank_range_command(w: Seq<Seq<char>>) -> core::result::Result<
    CommandView,
    ErrorView,
> {
    if w.len() < 4 {
        invalid("Usage: RANK.RANGE <table> <json.path> <start> <end>"@)
    } else {
        match (
            text::parsed_number(w[2], usize::MAX as nat),
            text::parsed_number(w[3], usize::MAX as nat),
        ) {
            (Some(start), Some(end)) => Ok(
                CommandView::RankRange {
                    table: text::lower_text(w[0]),
                    path: w[1],
                    start: start as usize,
                    end: end as usize,
                },
            ),
            _ => invalid("Invalid rank"@),
        }
    }
}

/// A bound of a scan: none where the word is missing or a sign for no bound.
pub open spec fn bound_of(w: Seq<Seq<char>>, i: int, open: Seq<char>) -> core::result::Result<
    Option<PlayerId>,
    ErrorView,
> {
    if i >= w.len() || w[i] == open {
        Ok(None)
    } else {
        match types::key_of_text(w[i]) {
            Ok(k) => Ok(Some(PlayerId(k))),
            Err(e) => Err(e),
        }
    }
}

pub open spec fn scan_command(w: Seq<Seq<char>>) -> core::result::Result<CommandView, ErrorView> {
    if w.len() < 1 {
        invalid("Usage: SCAN <table> [start] [end] [limit]"@)
    } else {
        match bound_of(w, 1, "-"@) {
            Err(e) => Err(e),
            Ok(start) => match bound_of(w, 2, "+"@) {
                Err(e) => Err(e),
                Ok(end) => Ok(
                    CommandView::Scan {
                        table: text::lower_text(w[0]),
                        start,
                        end,
                        limit: limit_of(w, 3),
                    },
                ),
            },
        }
    }
}

/// A query and what follows it: one in quotes ends at the closing quote, another at the end.
pub open spec fn query_of(s: Seq<char>) -> (Seq<char>, Seq<char>) {
    if s.len() > 0 && s[0] == '"' {
        match text::place_of(s, "\""@, 1) {
            Some(i) => (s.subrange(1, i), s.skip(i + 1)),
            None => (s.skip(1), Seq::empty()),
        }
    } else {
        (s, Seq::empty())
    }
}

pub open spec fn filter_command(p: Seq<Seq<char>>) -> core::result::Result<CommandView, ErrorView> {
    if p.len() < 2 {
        invalid("Usage: FILTER <table> \"<query>\" [limit]"@)
    } else {
        let q = query_of(text::trimmed(p[1]));
        Ok(
            CommandView::Filter {
                table: text::lower_text(p[0]),
                query: q.0,
                limit: limit_of(text::words(q.1), 0),
            },
        )
    }
}

pub open spec fn count_command(p: Seq<Seq<char>>) -> core::result::Result<CommandView, ErrorView> {
    if p[0].len() == 0 {
        invalid("Usage: COUNT <table> [\"<query>\"]"@)
    } else {
        Ok(
            CommandView::Count {
                table: text::lower_text(p[0]),
                query: if p.len() < 2 {
                    None
                } else {
                    Some(query_of(text::trimmed(p[1])).0)
                },
            },
        )
    }
}

// ---------------------------------------------------------------------------------------------
// Reading words
// ---------------------------------------------------------------------------------------------
/// The outcome of reading a command, by views.
pub open spec fn reads_as(r: Result<Command>) -> core::result::Result<CommandView, ErrorView> {
    match r {
        Ok(c) => Ok(c@),
        Err(e) => Err(e@),
    }
}

fn bad(msg: &str) -> (r: Result<Command>)
    ensures
        reads_as(r) == invalid(msg@),
{
    Err(DbError::InvalidCommand(msg.to_owned()))
}

fn lower(s: &[char]) -> (r: String)
    ensures
        r@ == text::lower_text(s@),
{
    let t = text::string_of(s);
    text::to_lower(t.as_str())
}

fn upper(s: &[char]) -> (r: String)
    ensures
        r@ == text::upper_text(s@),
{
    let t = text::string_of(s);
    text::to_upper(t.as_str())
}

fn key_from(s: &[char]) -> (r: Result<PlayerId>)
    ensures
        match r {
            Ok(k) => types::key_of_text(s@) == Ok::<u128, ErrorView>(k.0),
            Err(e) => types::key_of_text(s@) == Err::<u128, ErrorView>(e@),
        },
{
    let t = text::string_of(s);
    PlayerId::parse(t.as_str())
}

fn bytes_from(s: &[char]) -> (r: Bytes)
    ensures
        wire::bytes_view(r) == encode_utf8(s@),
{
    let t = text::string_of(s);
    Bytes::copy_from_slice(t.as_str().as_bytes())
}

fn number_from(s: &[char]) -> (r: Option<usize>)
    ensures
        match r {
            Some(n) => text::parsed_number(s@, usize::MAX as nat) == Some(n as nat),
            None => text::parsed_number(s@, usize::MAX as nat) is None,
        },
{
    match text::parse_u64(s) {
        Some(n) => if n <= usize::MAX as u64 {
            Some(n as usize)
        } else {
            None
        },
        None => None,
    }
}

fn limit_from(w: &Vec<Vec<char>>, i: usize) -> (r: usize)
    ensures
        r == limit_of(text::pieces_view(w@), i as int),
{
    if i < w.len() {
        match number_from(&w[i]) {
            Some(n) => n,
            None => DEFAULT_LIMIT,
        }
    } else {
        DEFAULT_LIMIT
    }
}

fn score_from(s: &[char]) -> (r: Option<u64>)
    ensures
        r == score_of(s@),
{
    let t = text::string_of(s);
    match json::parse_float(t.as_str()) {
        Some(bits) => if json::bits_are_nan(bits) {
            None
        } else {
            Some(bits)
        },
        None => None,
    }
}

fn same(s: &[char], t: &str) -> (r: bool)
    ensures
        r == (s@ == t@),
{
    let own = text::string_of(s);
    text::text_eq(own.as_str(), t)
}

fn keys_from(w: &Vec<Vec<char>>) -> (r: Result<Vec<PlayerId>>)
    requires
        w@.len() > 0,
    ensures
        match r {
            Ok(v) => keys_of(text::pieces_view(w@).skip(1)) == Ok::<Seq<u128>, ErrorView>(
                command::keys_view(v@),
            ),
            Err(e) => keys_of(text::pieces_view(w@).skip(1)) == Err::<Seq<u128>, ErrorView>(e@),
        },
{
    let ghost all = text::pieces_view(w@).skip(1);
    let mut keys: Vec<PlayerId> = Vec::new();
    let mut i: usize = 1;
    assert(all.take(0) =~= Seq::empty());
    assert(command::keys_view(keys@) =~= Seq::empty());
    while i < w.len()
        invariant
            1 <= i <= w@.len(),
            all == text::pieces_view(w@).skip(1),
            keys_of(all.take(i - 1)) == Ok::<Seq<u128>, ErrorView>(command::keys_view(keys@)),
        decreases w@.len() - i,
    {
        proof {
            assert(all.take(i as int).drop_last() =~= all.take(i - 1));
            assert(all.take(i as int).last() == w@[i as int]@);
        }
        match key_from(&w[i]) {
            Err(e) => {
                proof {
                    lemma_keys_stop(all, i as int, all.len() as int);
                    assert(all.take(all.len() as int) =~= all);
                }
                return Err(e);
            },
            Ok(k) => {
                let ghost held = command::keys_view(keys@);
                keys.push(k);
                assert(command::keys_view(keys@) =~= held.push(k.0));
            },
        }
        i = i + 1;
    }
    assert(all.take(i - 1) =~= all);
    Ok(keys)
}

proof fn lemma_keys_stop(w: Seq<Seq<char>>, n: int, m: int)
    requires
        0 <= n <= m <= w.len(),
        keys_of(w.take(n)) is Err,
    ensures
        keys_of(w.take(m)) == keys_of(w.take(n)),
    decreases m - n,
{
    if n < m {
        lemma_keys_stop(w, n, m - 1);
        assert(w.take(m).drop_last() =~= w.take(m - 1));
    }
}

// ---------------------------------------------------------------------------------------------
// Reading a key-value list
// ---------------------------------------------------------------------------------------------
/// The place where the white space that stands at `from` ends.
fn skip_spaces(s: &[char], from: usize) -> (r: usize)
    requires
        from <= s@.len(),
    ensures
        from <= r <= s@.len(),
        s@.skip(r as int) == text::trim_start(s@.skip(from as int)),
        r == s@.len() || !text::is_space(s@[r as int]),
{
    let mut i: usize = from;
    while i < s.len() && text::char_is_space(s[i])
        invariant
            from <= i <= s@.len(),
            text::trim_start(s@.skip(i as int)) == text::trim_start(s@.skip(from as int)),
        decreases s@.len() - i,
    {
        assert(s@.skip(i as int)[0] == s@[i as int]);
        assert(s@.skip(i as int).skip(1) =~= s@.skip(i + 1));
        i = i + 1;
    }
    proof {
        if i < s@.len() {
            assert(s@.skip(i as int)[0] == s@[i as int]);
        }
    }
    i
}

/// The place where the word that stands at `from` ends.
fn skip_word(s: &[char], from: usize) -> (r: usize)
    requires
        from <= s@.len(),
    ensures
        from <= r <= s@.len(),
        r - from == text::word_len(s@.skip(from as int)),
{
    let mut i: usize = from;
    while i < s.len() && !text::char_is_space(s[i])
        invariant
            from <= i <= s@.len(),
            text::word_len(s@.skip(from as int)) == i - from + text::word_len(s@.skip(i as int)),
        decreases s@.len() - i,
    {
        assert(s@.skip(i as int)[0] == s@[i as int]);
        assert(s@.skip(i as int).skip(1) =~= s@.skip(i + 1));
        i = i + 1;
    }
    proof {
        if i < s@.len() {
            assert(s@.skip(i as int)[0] == s@[i as int]);
        }
    }
    i
}

/// The place where the object in braces that stands at `from` ends.
fn skip_braces(s: &[char], from: usize) -> (r: usize)
    requires
        from < s@.len(),
        s@[from as int] == '{',
    ensures
        from <= r <= s@.len(),
        r - from == braced_len(s@.skip(from as int), 0, Place::Outside),
{
    let mut i: usize = from;
    let mut depth: usize = 0;
    let mut at = Place::Outside;
    let ghost all = s@.skip(from as int);
    while i < s.len()
        invariant
            from <= i <= s@.len(),
            from < s@.len(),
            s@[from as int] == '{',
            all == s@.skip(from as int),
            depth <= i - from,
            i == from ==> depth == 0 && at is Outside,
            i > from ==> depth > 0,
            braced_len(all, 0, Place::Outside) == i - from + braced_len(
                s@.skip(i as int),
                depth as int,
                at,
            ),
        decreases s@.len() - i,
    {
        let c = s[i];
        proof {
            assert(s@.skip(i as int)[0] == s@[i as int]);
            assert(s@.skip(i as int).skip(1) =~= s@.skip(i + 1));
        }
        i = i + 1;
        at = match at {
            Place::Outside => {
                if c == '{' {
                    depth = depth + 1;
                } else if c == '}' {
                    depth = depth - 1;
                    if depth == 0 {
                        return i;
                    }
                }
                if c == '"' {
                    Place::Quoted
                } else {
                    Place::Outside
                }
            },
            Place::Quoted => if c == '"' {
                Place::Outside
            } else if c == '\\' {
                Place::Escaped
            } else {
                Place::Quoted
            },
            Place::Escaped => Place::Quoted,
        };
    }
    i
}

/// The keys and values of a list of them in turn.
fn entries_from(s: &[char]) -> (r: Result<Vec<(PlayerId, Bytes)>>)
    ensures
        match r {
            Ok(v) => mset_entries(s@) == Ok::<Seq<(u128, Seq<u8>)>, ErrorView>(
                iterator::pairs_view(v@),
            ),
            Err(e) => mset_entries(s@) == Err::<Seq<(u128, Seq<u8>)>, ErrorView>(e@),
        },
{
    let mut entries: Vec<(PlayerId, Bytes)> = Vec::new();
    let mut i: usize = 0;
    assert(s@.skip(0) =~= s@);
    proof {
        lemma_joined_nothing(mset_entries(s@));
        assert(iterator::pairs_view(entries@) =~= Seq::empty());
    }
    while i < s.len()
        invariant
            i <= s@.len(),
            mset_entries(s@) == joined(
                iterator::pairs_view(entries@),
                mset_entries(s@.skip(i as int)),
            ),
        decreases s@.len() - i,
    {
        let ghost start = s@.skip(i as int);
        let name_at: usize = skip_spaces(s, i);
        let ghost b = s@.skip(name_at as int);
        if name_at == s.len() {
            assert(mset_entries(start) == Ok::<Seq<(u128, Seq<u8>)>, ErrorView>(Seq::empty()));
            assert(iterator::pairs_view(entries@) + Seq::empty() =~= iterator::pairs_view(entries@));
            return Ok(entries);
        }
        let name_end: usize = skip_word(s, name_at);
        proof {
            assert(b[0] == s@[name_at as int]);
            text::lemma_word_len(b);
            assert(s@.subrange(name_at as int, name_end as int) =~= b.take(name_end - name_at));
            assert(b.skip(name_end - name_at) =~= s@.skip(name_end as int));
        }
        let key = match key_from(&s[name_at..name_end]) {
            Err(e) => {
                return Err(e);
            },
            Ok(k) => k,
        };
        let value_at: usize = skip_spaces(s, name_end);
        let ghost c = s@.skip(value_at as int);
        proof {
            if value_at < s@.len() {
                assert(c[0] == s@[value_at as int]);
            }
        }
        let value_end: usize = if value_at < s.len() && s[value_at] == '{' {
            skip_braces(s, value_at)
        } else {
            skip_word(s, value_at)
        };
        assert(value_end - value_at == value_len(c));
        if value_end == value_at {
            return Err(DbError::InvalidCommand("Malformed MSET key-value pairs".to_owned()));
        }
        let value = bytes_from(&s[value_at..value_end]);
        let ghost item = (key.0, wire::bytes_view(value));
        let ghost held = iterator::pairs_view(entries@);
        entries.push((key, value));
        proof {
            assert(s@.subrange(value_at as int, value_end as int) =~= c.take(
                value_end - value_at,
            ));
            assert(c.skip(value_end - value_at) =~= s@.skip(value_end as int));
            assert(iterator::pairs_view(entries@) =~= held.push(item));
            lemma_joined_push(held, item, mset_entries(s@.skip(value_end as int)));
        }
        i = value_end;
    }
    proof {
        assert(s@.skip(i as int) =~= Seq::empty());
        assert(text::trim_start(Seq::<char>::empty()) =~= Seq::empty());
        assert(iterator::pairs_view(entries@) + Seq::empty() =~= iterator::pairs_view(entries@));
    }
    Ok(entries)
}

/// The keys of a list of keys and values in turn, with their texts.
fn keys_named_in(s: &[char]) -> (r: Vec<(PlayerId, String)>)
    ensures
        names::named_view(r@) == mset_keys(s@),
{
    let mut found: Vec<(PlayerId, String)> = Vec::new();
    let mut i: usize = 0;
    proof {
        assert(s@.skip(0) =~= s@);
        assert(names::named_view(found@) =~= Seq::empty());
        assert(names::named_view(found@) + mset_keys(s@) =~= mset_keys(s@));
    }
    while i < s.len()
        invariant
            i <= s@.len(),
            mset_keys(s@) == names::named_view(found@) + mset_keys(s@.skip(i as int)),
        decreases s@.len() - i,
    {
        let name_at: usize = skip_spaces(s, i);
        let ghost b = s@.skip(name_at as int);
        let ghost so_far = names::named_view(found@);
        assert(so_far + Seq::empty() =~= so_far);
        if name_at == s.len() {
            return found;
        }
        let name_end: usize = skip_word(s, name_at);
        proof {
            assert(b[0] == s@[name_at as int]);
            text::lemma_word_len(b);
            assert(s@.subrange(name_at as int, name_end as int) =~= b.take(name_end - name_at));
            assert(b.skip(name_end - name_at) =~= s@.skip(name_end as int));
        }
        let key = match key_from(&s[name_at..name_end]) {
            Err(_) => {
                return found;
            },
            Ok(k) => k,
        };
        let value_at: usize = skip_spaces(s, name_end);
        let ghost c = s@.skip(value_at as int);
        proof {
            if value_at < s@.len() {
                assert(c[0] == s@[value_at as int]);
            }
        }
        let value_end: usize = if value_at < s.len() && s[value_at] == '{' {
            skip_braces(s, value_at)
        } else {
            skip_word(s, value_at)
        };
        assert(value_end - value_at == value_len(c));
        if value_end == value_at {
            return found;
        }
        let name = text::string_of(text::trim(&s[name_at..name_end]));
        let ghost item = (key.0, name@);
        found.push((key, name));
        proof {
            assert(c.skip(value_end - value_at) =~= s@.skip(value_end as int));
            assert(names::named_view(found@) =~= so_far.push(item));
            let rest = mset_keys(s@.skip(value_end as int));
            assert(so_far + (seq![item] + rest) =~= so_far.push(item) + rest);
        }
        i = value_end;
    }
    proof {
        assert(s@.skip(i as int) =~= Seq::empty());
        assert(text::trim_start(Seq::<char>::empty()) =~= Seq::empty());
        assert(names::named_view(found@) + Seq::empty() =~= names::named_view(found@));
    }
    found
}

/// The key that the second of some pieces stands for, with its text.
fn key_named_in(p: &Vec<Vec<char>>) -> (r: Vec<(PlayerId, String)>)
    ensures
        names::named_view(r@) == written_key(text::pieces_view(p@)),
{
    let mut found: Vec<(PlayerId, String)> = Vec::new();
    assert(names::named_view(found@) =~= Seq::empty());
    if p.len() >= 2 {
        if let Ok(key) = key_from(&p[1]) {
            let name = text::string_of(text::trim(&p[1]));
            let ghost item = (key.0, name@);
            found.push((key, name));
            assert(names::named_view(found@) =~= seq![item]);
        }
    }
    found
}

/// `head` before a list that may have failed.
spec fn joined(
    head: Seq<(u128, Seq<u8>)>,
    rest: core::result::Result<Seq<(u128, Seq<u8>)>, ErrorView>,
) -> core::result::Result<Seq<(u128, Seq<u8>)>, ErrorView> {
    match rest {
        Ok(s) => Ok(head + s),
        Err(e) => Err(e),
    }
}

proof fn lemma_joined_nothing(rest: core::result::Result<Seq<(u128, Seq<u8>)>, ErrorView>)
    ensures
        joined(Seq::empty(), rest) == rest,
{
    match rest {
        Ok(s) => {
            assert(Seq::empty() + s =~= s);
        },
        Err(_) => {},
    }
}

proof fn lemma_joined_push(
    head: Seq<(u128, Seq<u8>)>,
    item: (u128, Seq<u8>),
    rest: core::result::Result<Seq<(u128, Seq<u8>)>, ErrorView>,
)
    ensures
        joined(head.push(item), rest) == joined(head, joined(seq![item], rest)),
{
    match rest {
        Ok(s) => {
            assert(head.push(item) + s =~= head + (seq![item] + s));
        },
        Err(_) => {},
    }
}

// ---------------------------------------------------------------------------------------------
// Reading commands
// ---------------------------------------------------------------------------------------------
fn read_optional(s: &[char]) -> (r: Option<String>)
    ensures
        command::option_text(r) == optional(s@),
{
    if s.len() == 0 {
        None
    } else {
        Some(text::string_of(s))
    }
}

fn read_optional_lower(s: &[char]) -> (r: Option<String>)
    ensures
        command::option_text(r) == optional_lower(s@),
{
    if s.len() == 0 {
        None
    } else {
        Some(lower(s))
    }
}

fn read_auth(rest: &[char]) -> (r: Result<Command>)
    ensures
        reads_as(r) == auth_command(rest@),
{
    if rest.len() == 0 {
        bad("Usage: AUTH <password>")
    } else {
        Ok(Command::Auth { password: text::string_of(rest) })
    }
}

fn read_show(rest: &[char]) -> (r: Result<Command>)
    ensures
        reads_as(r) == show_command(rest@),
{
    let tables = text::chars_of("TABLES");
    if text::eq_ignore_case(rest, &tables) {
        Ok(Command::Tables)
    } else {
        bad("Usage: SHOW TABLES")
    }
}

fn read_create(w: &Vec<Vec<char>>) -> (r: Result<Command>)
    ensures
        reads_as(r) == create_command(text::pieces_view(w@)),
{
    if w.len() == 0 || !text::text_eq(upper(&w[0]).as_str(), "TABLE") {
        return bad("Usage: CREATE TABLE <name>");
    }
    if w.len() < 2 {
        return bad("Usage: CREATE TABLE <table_name>");
    }
    Ok(Command::CreateTable { table: lower(&w[1]) })
}

fn read_get(w: &Vec<Vec<char>>) -> (r: Result<Command>)
    ensures
        reads_as(r) == get_command(text::pieces_view(w@)),
{
    if w.len() < 2 {
        return bad("Usage: GET <table> <UUID>");
    }
    match key_from(&w[1]) {
        Err(e) => Err(e),
        Ok(key) => Ok(Command::Get { table: lower(&w[0]), key }),
    }
}

fn read_mget(w: &Vec<Vec<char>>) -> (r: Result<Command>)
    ensures
        reads_as(r) == mget_command(text::pieces_view(w@)),
{
    if w.len() < 2 {
        return bad("Usage: MGET <table> <UUID1> <UUID2> ...");
    }
    match keys_from(w) {
        Err(e) => Err(e),
        Ok(keys) => Ok(Command::Mget { table: lower(&w[0]), keys }),
    }
}

fn read_set(p: &Vec<Vec<char>>) -> (r: Result<Command>)
    ensures
        reads_as(r) == set_command(text::pieces_view(p@)),
{
    if p.len() < 3 {
        return bad("Usage: SET <table> <UUID> <JSON>");
    }
    match key_from(&p[1]) {
        Err(e) => Err(e),
        Ok(key) => Ok(Command::Put { table: lower(&p[0]), key, value: bytes_from(&p[2]) }),
    }
}

fn read_mset(p: &Vec<Vec<char>>) -> (r: Result<Command>)
    requires
        p@.len() > 0,
    ensures
        reads_as(r) == mset_command(text::pieces_view(p@)),
{
    let found = if p.len() > 1 {
        entries_from(text::trim(&p[1]))
    } else {
        let none: Vec<char> = Vec::new();
        assert(none@ =~= Seq::empty());
        entries_from(&none)
    };
    match found {
        Err(e) => Err(e),
        Ok(entries) => if entries.len() == 0 {
            bad("Usage: MSET <table> <UUID1> <JSON1> ...")
        } else {
            Ok(Command::Mset { table: lower(&p[0]), entries })
        },
    }
}

fn read_delete(w: &Vec<Vec<char>>) -> (r: Result<Command>)
    ensures
        reads_as(r) == delete_command(text::pieces_view(w@)),
{
    if w.len() < 2 {
        return bad("Usage: DEL <table> <UUID>");
    }
    match key_from(&w[1]) {
        Err(e) => Err(e),
        Ok(key) => Ok(Command::Delete { table: lower(&w[0]), key }),
    }
}

fn read_exists(w: &Vec<Vec<char>>) -> (r: Result<Command>)
    ensures
        reads_as(r) == exists_command(text::pieces_view(w@)),
{
    if w.len() < 2 {
        return bad("Usage: EXISTS <table> <UUID1> [UUID2 ...]");
    }
    match keys_from(w) {
        Err(e) => Err(e),
        Ok(keys) => Ok(Command::Exists { table: lower(&w[0]), keys }),
    }
}

fn read_expire(w: &Vec<Vec<char>>) -> (r: Result<Command>)
    ensures
        reads_as(r) == expire_command(text::pieces_view(w@)),
{
    if w.len() < 3 {
        return bad("Usage: EXPIRE <table> <UUID> <seconds>");
    }
    match key_from(&w[1]) {
        Err(e) => Err(e),
        Ok(key) => match text::parse_u64(&w[2]) {
            None => bad("Invalid expire seconds"),
            Some(seconds) => Ok(Command::Expire { table: lower(&w[0]), key, seconds }),
        },
    }
}

fn read_ttl(w: &Vec<Vec<char>>) -> (r: Result<Command>)
    ensures
        reads_as(r) == ttl_command(text::pieces_view(w@)),
{
    if w.len() < 2 {
        return bad("Usage: TTL <table> <UUID>");
    }
    match key_from(&w[1]) {
        Err(e) => Err(e),
        Ok(key) => Ok(Command::Ttl { table: lower(&w[0]), key }),
    }
}

fn read_index(w: &Vec<Vec<char>>) -> (r: Result<Command>)
    ensures
        reads_as(r) == index_command(text::pieces_view(w@)),
{
    let sub = if w.len() == 0 {
        let none: Vec<char> = Vec::new();
        assert(none@ =~= Seq::empty());
        upper(&none)
    } else {
        upper(&w[0])
    };
    let word = sub.as_str();
    if text::text_eq(word, "CREATE") || text::text_eq(word, "ADD") {
        if w.len() < 3 {
            return bad("Usage: INDEX CREATE <table> <json.path>");
        }
        Ok(Command::IndexCreate { table: lower(&w[1]), path: text::string_of(&w[2]) })
    } else if text::text_eq(word, "LIST") {
        if w.len() < 2 {
            return bad("Usage: INDEX LIST <table>");
        }
        Ok(Command::IndexList { table: lower(&w[1]) })
    } else {
        bad("Usage: INDEX <CREATE|LIST> <table> [path]")
    }
}

fn read_top(w: &Vec<Vec<char>>) -> (r: Result<Command>)
    ensures
        reads_as(r) == top_command(text::pieces_view(w@)),
{
    if w.len() < 2 {
        return bad("Usage: TOP <table> <json.path> [limit]");
    }
    let asked: usize = limit_from(w, 2);
    let limit: usize = if asked > MAX_LIMIT {
        MAX_LIMIT
    } else {
        asked
    };
    Ok(Command::Top { table: lower(&w[0]), path: text::string_of(&w[1]), limit })
}

fn read_rank(w: &Vec<Vec<char>>) -> (r: Result<Command>)
    ensures
        reads_as(r) == rank_command(text::pieces_view(w@)),
{
    if w.len() < 3 {
        return bad("Usage: RANK <table> <json.path> <UUID>");
    }
    match key_from(&w[2]) {
        Err(e) => Err(e),
        Ok(key) => Ok(Command::Rank { table: lower(&w[0]), path: text::string_of(&w[1]), key }),
    }
}

fn read_json_set(p: &Vec<Vec<char>>) -> (r: Result<Command>)
    ensures
        reads_as(r) == json_set_command(text::pieces_view(p@)),
{
    if p.len() < 4 {
        return bad("Usage: JSON.SET <table> <UUID> <json.path> <value>");
    }
    match key_from(&p[1]) {
        Err(e) => Err(e),
        Ok(key) => Ok(
            Command::JsonSet {
                table: lower(&p[0]),
                key,
                path: text::string_of(&p[2]),
                value: text::string_of(&p[3]),
            },
        ),
    }
}

fn read_rank_key(w: &Vec<Vec<char>>) -> (r: Result<Command>)
    ensures
        reads_as(r) == rank_key_command(text::pieces_view(w@)),
{
    if w.len() < 3 {
        return bad("Usage: RANK.KEY <table> <json.path> <UUID> [limit]");
    }
    match key_from(&w[2]) {
        Err(e) => Err(e),
        Ok(key) => Ok(
            Command::RankKey {
                table: lower(&w[0]),
                path: text::string_of(&w[1]),
                key,
                limit: limit_from(w, 3),
            },
        ),
    }
}

fn read_rank_score(w: &Vec<Vec<char>>) -> (r: Result<Command>)
    ensures
        reads_as(r) == rank_score_command(text::pieces_view(w@)),
{
    if w.len() < 3 {
        return bad("Usage: RANK.SCORE <table> <json.path> <score> [limit]");
    }
    match score_from(&w[2]) {
        None => bad("Invalid score"),
        Some(score) => Ok(
            Command::RankScore {
                table: lower(&w[0]),
                path: text::string_of(&w[1]),
                score,
                limit: limit_from(w, 3),
            },
        ),
    }
}

fn read_rank_range_score(w: &Vec<Vec<char>>) -> (r: Result<Command>)
    ensures
        reads_as(r) == rank_range_score_command(text::pieces_view(w@)),
{
    if w.len() < 4 {
        return bad("Usage: RANK.RANGE_SCORE <table> <json.path> <min> <max> [limit]");
    }
    match (score_from(&w[2]), score_from(&w[3])) {
        (Some(min), Some(max)) => Ok(
            Command::RankRangeScore {
                table: lower(&w[0]),
                path: text::string_of(&w[1]),
                min,
                max,
                limit: limit_from(w, 4),
            },
        ),
        _ => bad("Invalid score"),
    }
}

fn read_rank_range(w: &Vec<Vec<char>>) -> (r: Result<Command>)
    ensures
        reads_as(r) == rank_range_command(text::pieces_view(w@)),
{
    if w.len() < 4 {
        return bad("Usage: RANK.RANGE <table> <json.path> <start> <end>");
    }
    match (number_from(&w[2]), number_from(&w[3])) {
        (Some(start), Some(end)) => Ok(
            Command::RankRange {
                table: lower(&w[0]),
                path: text::string_of(&w[1]),
                start,
                end,
            },
        ),
        _ => bad("Invalid rank"),
    }
}

fn bound_from(w: &Vec<Vec<char>>, i: usize, sign: &str) -> (r: Result<Option<PlayerId>>)
    ensures
        match r {
            Ok(b) => bound_of(text::pieces_view(w@), i as int, sign@) == Ok::<
                Option<PlayerId>,
                ErrorView,
            >(b),
            Err(e) => bound_of(text::pieces_view(w@), i as int, sign@) == Err::<
                Option<PlayerId>,
                ErrorView,
            >(e@),
        },
{
    if i >= w.len() || same(&w[i], sign) {
        return Ok(None);
    }
    match key_from(&w[i]) {
        Ok(k) => Ok(Some(k)),
        Err(e) => Err(e),
    }
}

fn read_scan(w: &Vec<Vec<char>>) -> (r: Result<Command>)
    ensures
        reads_as(r) == scan_command(text::pieces_view(w@)),
{
    if w.len() < 1 {
        return bad("Usage: SCAN <table> [start] [end] [limit]");
    }
    let start = match bound_from(w, 1, "-") {
        Err(e) => {
            return Err(e);
        },
        Ok(b) => b,
    };
    match bound_from(w, 2, "+") {
        Err(e) => Err(e),
        Ok(end) => Ok(
            Command::Scan { table: lower(&w[0]), start, end, limit: limit_from(w, 3) },
        ),
    }
}

/// Reads a query and what follows it.
fn query_from(s: &[char]) -> (r: (String, Vec<Vec<char>>))
    ensures
        r.0@ == query_of(s@).0,
        text::pieces_view(r.1@) == text::words(query_of(s@).1),
{
    if s.len() > 0 && s[0] == '"' {
        let quote = text::chars_of("\"");
        proof {
            reveal_strlit("\"");
        }
        let n: usize = s.len();
        let mut i: usize = 1;
        while i < s.len()
            invariant
                1 <= i <= s@.len(),
                n == s@.len(),
                s@[0] == '"',
                quote@ == "\""@,
                quote@.len() == 1,
                text::place_of(s@, quote@, 1) == text::place_of(s@, quote@, i as int),
            decreases s@.len() - i,
        {
            if text::stands_at(s, &quote, i) {
                proof {
                    assert(s@.subrange(i + 1, n as int) =~= s@.skip(i + 1));
                }
                return (text::string_of(&s[1..i]), text::split_words(&s[i + 1..n]));
            }
            i = i + 1;
        }
        let none: Vec<Vec<char>> = Vec::new();
        proof {
            assert(text::pieces_view(none@) =~= text::words(Seq::empty()));
            assert(s@.subrange(1, n as int) =~= s@.skip(1));
        }
        return (text::string_of(&s[1..n]), none);
    }
    let none: Vec<Vec<char>> = Vec::new();
    assert(text::pieces_view(none@) =~= text::words(Seq::empty()));
    (text::string_of(s), none)
}

fn read_filter(p: &Vec<Vec<char>>) -> (r: Result<Command>)
    ensures
        reads_as(r) == filter_command(text::pieces_view(p@)),
{
    if p.len() < 2 {
        return bad("Usage: FILTER <table> \"<query>\" [limit]");
    }
    let (query, rest) = query_from(text::trim(&p[1]));
    Ok(Command::Filter { table: lower(&p[0]), query, limit: limit_from(&rest, 0) })
}

fn read_count(p: &Vec<Vec<char>>) -> (r: Result<Command>)
    requires
        p@.len() > 0,
    ensures
        reads_as(r) == count_command(text::pieces_view(p@)),
{
    if p[0].len() == 0 {
        return bad("Usage: COUNT <table> [\"<query>\"]");
    }
    let query = if p.len() < 2 {
        None
    } else {
        Some(query_from(text::trim(&p[1])).0)
    };
    Ok(Command::Count { table: lower(&p[0]), query })
}

fn split_off(s: &[char], n: usize) -> (r: Vec<Vec<char>>)
    requires
        n > 0,
    ensures
        text::pieces_view(r@) == text::pieces_up_to(s@, " "@, n as nat),
        1 <= r@.len() <= n,
{
    let space = text::chars_of(" ");
    text::split_up_to(s, &space, n)
}

/// Reads what follows a verb in upper case.
pub fn read_verb(verb: &str, rest: &[char]) -> (r: Result<Command>)
    ensures
        reads_as(r) == verb_command(verb@, rest@),
{
    if text::text_eq(verb, "PING") {
        Ok(Command::Ping)
    } else if text::text_eq(verb, "TABLES") {
        Ok(Command::Tables)
    } else if text::text_eq(verb, "QUIT") || text::text_eq(verb, "EXIT") {
        Ok(Command::Quit)
    } else if text::text_eq(verb, "AUTH") {
        read_auth(rest)
    } else if text::text_eq(verb, "SHOW") {
        read_show(rest)
    } else if text::text_eq(verb, "CREATE") {
        read_create(&text::split_words(rest))
    } else if text::text_eq(verb, "GET") {
        read_get(&text::split_words(rest))
    } else if text::text_eq(verb, "MGET") {
        read_mget(&text::split_words(rest))
    } else if text::text_eq(verb, "SET") {
        read_set(&split_off(rest, 3))
    } else if text::text_eq(verb, "MSET") {
        read_mset(&split_off(rest, 2))
    } else if text::text_eq(verb, "DEL") || text::text_eq(verb, "DELETE") {
        read_delete(&text::split_words(rest))
    } else if text::text_eq(verb, "EXISTS") {
        read_exists(&text::split_words(rest))
    } else if text::text_eq(verb, "EXPIRE") {
        read_expire(&text::split_words(rest))
    } else if text::text_eq(verb, "TTL") {
        read_ttl(&text::split_words(rest))
    } else if text::text_eq(verb, "INDEX") {
        read_index(&text::split_words(rest))
    } else if text::text_eq(verb, "TOP") {
        read_top(&text::split_words(rest))
    } else if text::text_eq(verb, "RANK") {
        read_rank(&text::split_words(rest))
    } else if text::text_eq(verb, "BACKUP") {
        Ok(Command::Backup { target_dir: read_optional(rest) })
    } else if text::text_eq(verb, "STATS") {
        Ok(Command::Stats { table: read_optional_lower(rest) })
    } else if text::text_eq(verb, "FLUSH") {
        Ok(Command::Flush { table: read_optional_lower(rest) })
    } else {
        read_dotted(verb, rest)
    }
}

fn read_dotted(verb: &str, rest: &[char]) -> (r: Result<Command>)
    ensures
        reads_as(r) == dotted_command(verb@, rest@),
{
    if text::text_eq(verb, "JSON.SET") {
        read_json_set(&split_off(rest, 4))
    } else if text::text_eq(verb, "RANK.KEY") {
        read_rank_key(&text::split_words(rest))
    } else if text::text_eq(verb, "RANK.SCORE") {
        read_rank_score(&text::split_words(rest))
    } else if text::text_eq(verb, "RANK.RANGE_SCORE") {
        read_rank_range_score(&text::split_words(rest))
    } else if text::text_eq(verb, "RANK.RANGE") {
        read_rank_range(&text::split_words(rest))
    } else if text::text_eq(verb, "SCAN") {
        read_scan(&text::split_words(rest))
    } else if text::text_eq(verb, "FILTER") {
        read_filter(&split_off(rest, 2))
    } else if text::text_eq(verb, "COUNT") {
        read_count(&split_off(rest, 2))
    } else {
        let mut msg = "Unknown command: '".to_owned();
        text::push_text(&mut msg, verb);
        text::push_text(&mut msg, "'");
        Err(DbError::InvalidCommand(msg))
    }
}

pub struct CommandParser;

impl CommandParser {
    /// Reads a line of the protocol.
    pub fn parse(input: &str) -> (r: Result<Command>)
        ensures
            reads_as(r) == command_of(input@),
    {
        let all = text::chars_of(input);
        let trimmed = text::trim(&all);
        if trimmed.len() == 0 {
            return bad("Empty command");
        }
        let parts = split_off(trimmed, 2);
        let verb = upper(&parts[0]);
        if parts.len() > 1 {
            read_verb(verb.as_str(), text::trim(&parts[1]))
        } else {
            let none: Vec<char> = Vec::new();
            assert(none@ =~= Seq::empty());
            read_verb(verb.as_str(), &none)
        }
    }

    /// The keys that a line writes, with the texts under which it names them.
    pub fn written_keys(input: &str) -> (r: Vec<(PlayerId, String)>)
        ensures
            names::named_view(r@) == written_keys(input@),
    {
        let all = text::chars_of(input);
        let trimmed = text::trim(&all);
        let none: Vec<(PlayerId, String)> = Vec::new();
        assert(names::named_view(none@) =~= Seq::empty());
        if trimmed.len() == 0 {
            return none;
        }
        let parts = split_off(trimmed, 2);
        if parts.len() < 2 {
            return none;
        }
        let verb = upper(&parts[0]);
        let rest = text::trim(&parts[1]);
        if text::text_eq(verb.as_str(), "SET") {
            key_named_in(&split_off(rest, 3))
        } else if text::text_eq(verb.as_str(), "JSON.SET") {
            key_named_in(&split_off(rest, 4))
        } else if text::text_eq(verb.as_str(), "MSET") {
            let p = split_off(rest, 2);
            if p.len() > 1 {
                keys_named_in(text::trim(&p[1]))
            } else {
                none
            }
        } else {
            none
        }
    }
}

/// Each text under which a line names a key stands for that key.
pub proof fn law_written_keys_fit(input: Seq<char>, i: int)
    requires
        0 <= i < written_keys(input).len(),
    ensures
        types::key_of_text(written_keys(input)[i].1) == Ok::<u128, ErrorView>(
            written_keys(input)[i].0,
        ),
        text::trimmed(written_keys(input)[i].1) == written_keys(input)[i].1,
{
    let parts = text::pieces_up_to(text::trimmed(input), " "@, 2);
    let rest = text::trimmed(parts[1]);
    lemma_written_key(text::pieces_up_to(rest, " "@, 3));
    lemma_written_key(text::pieces_up_to(rest, " "@, 4));
    let p = text::pieces_up_to(rest, " "@, 2);
    if p.len() > 1 {
        lemma_mset_keys(text::trimmed(p[1]));
    }
}

spec fn keys_fit(s: Seq<(u128, Seq<char>)>) -> bool {
    forall|i: int|
        0 <= i < s.len() ==> types::key_of_text((#[trigger] s[i]).1) == Ok::<u128, ErrorView>(
            s[i].0,
        ) && text::trimmed(s[i].1) == s[i].1
}

proof fn lemma_written_key(p: Seq<Seq<char>>)
    ensures
        keys_fit(written_key(p)),
{
    if p.len() >= 2 {
        types::law_space_around_a_key_is_ignored(p[1]);
        text::lemma_trimmed_twice(p[1]);
    }
}

proof fn lemma_mset_keys(s: Seq<char>)
    ensures
        keys_fit(mset_keys(s)),
    decreases s.len(),
{
    let b = text::trim_start(s);
    let name = b.take(text::word_len(b) as int);
    let c = text::trim_start(b.skip(text::word_len(b) as int));
    lemma_trim_start_len(s);
    text::lemma_word_len(b);
    lemma_trim_start_len(b.skip(text::word_len(b) as int));
    text::lemma_word_len(c);
    lemma_braced_len(c, 0, Place::Outside);
    if b.len() > 0 && types::key_of_text(name) is Ok && value_len(c) > 0 {
        lemma_mset_keys(c.skip(value_len(c) as int));
        types::law_space_around_a_key_is_ignored(name);
        text::lemma_trimmed_twice(name);
    }
}

} // verus!
