//! The commands of the text protocol.
use bytes::Bytes;
use vstd::prelude::*;

use crate::storage::iterator;
use crate::types::PlayerId;
use crate::wire;

verus! {

/// A command.
#[derive(Debug, PartialEq)]
#[allow(inconsistent_fields)]
pub enum Command {
    Ping,
    Auth { password: String },
    Tables,
    CreateTable { table: String },
    Get { table: String, key: PlayerId },
    Mget { table: String, keys: Vec<PlayerId> },
    Put { table: String, key: PlayerId, value: Bytes },
    Mset { table: String, entries: Vec<(PlayerId, Bytes)> },
    Delete { table: String, key: PlayerId },
    Exists { table: String, keys: Vec<PlayerId> },
    Expire { table: String, key: PlayerId, seconds: u64 },
    Ttl { table: String, key: PlayerId },
    JsonSet { table: String, key: PlayerId, path: String, value: String },
    IndexCreate { table: String, path: String },
    IndexList { table: String },
    Top { table: String, path: String, limit: usize },
    Rank { table: String, path: String, key: PlayerId },
    RankKey { table: String, path: String, key: PlayerId, limit: usize },
    RankScore { table: String, path: String, score: u64, limit: usize },
    RankRangeScore { table: String, path: String, min: u64, max: u64, limit: usize },
    RankRange { table: String, path: String, start: usize, end: usize },
    Scan { table: String, start: Option<PlayerId>, end: Option<PlayerId>, limit: usize },
    Filter { table: String, query: String, limit: usize },
    Count { table: String, query: Option<String> },
    Stats { table: Option<String> },
    Flush { table: Option<String> },
    Backup { target_dir: Option<String> },
    Quit,
}

/// A command, by views.
#[allow(inconsistent_fields)]
pub enum CommandView {
    Ping,
    Auth { password: Seq<char> },
    Tables,
    CreateTable { table: Seq<char> },
    Get { table: Seq<char>, key: u128 },
    Mget { table: Seq<char>, keys: Seq<u128> },
    Put { table: Seq<char>, key: u128, value: Seq<u8> },
    Mset { table: Seq<char>, entries: Seq<(u128, Seq<u8>)> },
    Delete { table: Seq<char>, key: u128 },
    Exists { table: Seq<char>, keys: Seq<u128> },
    Expire { table: Seq<char>, key: u128, seconds: u64 },
    Ttl { table: Seq<char>, key: u128 },
    JsonSet { table: Seq<char>, key: u128, path: Seq<char>, value: Seq<char> },
    IndexCreate { table: Seq<char>, path: Seq<char> },
    IndexList { table: Seq<char> },
    Top { table: Seq<char>, path: Seq<char>, limit: usize },
    Rank { table: Seq<char>, path: Seq<char>, key: u128 },
    RankKey { table: Seq<char>, path: Seq<char>, key: u128, limit: usize },
    RankScore { table: Seq<char>, path: Seq<char>, score: u64, limit: usize },
    RankRangeScore { table: Seq<char>, path: Seq<char>, min: u64, max: u64, limit: usize },
    RankRange { table: Seq<char>, path: Seq<char>, start: usize, end: usize },
    Scan { table: Seq<char>, start: Option<PlayerId>, end: Option<PlayerId>, limit: usize },
    Filter { table: Seq<char>, query: Seq<char>, limit: usize },
    Count { table: Seq<char>, query: Option<Seq<char>> },
    Stats { table: Option<Seq<char>> },
    Flush { table: Option<Seq<char>> },
    Backup { target_dir: Option<Seq<char>> },
    Quit,
}

/// Some keys as numbers.
pub open spec fn keys_view(s: Seq<PlayerId>) -> Seq<u128> {
    s.map_values(|k: PlayerId| k.0)
}

/// Text that may be missing.
pub open spec fn option_text(s: Option<String>) -> Option<Seq<char>> {
    match s {
        Some(t) => Some(t@),
        None => None,
    }
}

impl View for Command {
    type V = CommandView;

    open spec fn view(&self) -> CommandView {
        match *self {
            Command::Ping => CommandView::Ping,
            Command::Auth { password } => CommandView::Auth { password: password@ },
            Command::Tables => CommandView::Tables,
            Command::CreateTable { table } => CommandView::CreateTable { table: table@ },
            Command::Get { table, key } => CommandView::Get { table: table@, key: key.0 },
            Command::Mget { table, keys } => CommandView::Mget {
                table: table@,
                keys: keys_view(keys@),
            },
            Command::Put { table, key, value } => CommandView::Put {
                table: table@,
                key: key.0,
                value: wire::bytes_view(value),
            },
            Command::Mset { table, entries } => CommandView::Mset {
                table: table@,
                entries: iterator::pairs_view(entries@),
            },
            Command::Delete { table, key } => CommandView::Delete { table: table@, key: key.0 },
            Command::Exists { table, keys } => CommandView::Exists {
                table: table@,
                keys: keys_view(keys@),
            },
            Command::Expire { table, key, seconds } => CommandView::Expire {
                table: table@,
                key: key.0,
                seconds,
            },
            Command::Ttl { table, key } => CommandView::Ttl { table: table@, key: key.0 },
            Command::JsonSet { table, key, path, value } => CommandView::JsonSet {
                table: table@,
                key: key.0,
                path: path@,
                value: value@,
            },
            Command::IndexCreate { table, path } => CommandView::IndexCreate {
                table: table@,
                path: path@,
            },
            Command::IndexList { table } => CommandView::IndexList { table: table@ },
            Command::Top { table, path, limit } => CommandView::Top {
                table: table@,
                path: path@,
                limit,
            },
            Command::Rank { table, path, key } => CommandView::Rank {
                table: table@,
                path: path@,
                key: key.0,
            },
            Command::RankKey { table, path, key, limit } => CommandView::RankKey {
                table: table@,
                path: path@,
                key: key.0,
                limit,
            },
            Command::RankScore { table, path, score, limit } => CommandView::RankScore {
                table: table@,
                path: path@,
                score,
                limit,
            },
            Command::RankRangeScore { table, path, min, max, limit } =>
            CommandView::RankRangeScore { table: table@, path: path@, min, max, limit },
            Command::RankRange { table, path, start, end } => CommandView::RankRange {
                table: table@,
                path: path@,
                start,
                end,
            },
            Command::Scan { table, start, end, limit } => CommandView::Scan {
                table: table@,
                start,
                end,
                limit,
            },
            Command::Filter { table, query, limit } => CommandView::Filter {
                table: table@,
                query: query@,
                limit,
            },
            Command::Count { table, query } => CommandView::Count {
                table: table@,
                query: option_text(query),
            },
            Command::Stats { table } => CommandView::Stats { table: option_text(table) },
            Command::Flush { table } => CommandView::Flush { table: option_text(table) },
            Command::Backup { target_dir } => CommandView::Backup {
                target_dir: option_text(target_dir),
            },
            Command::Quit => CommandView::Quit,
        }
    }
}

} // verus!
